use crate::attacks::{attacks, pawns, piece_attacks, Tables};
use crate::bits::{bit, lemma_and_not, lemma_pop, lemma_within_ops, low_index, lsb, on, pop, within_board};
use crate::board::{held_by, kind_of, Board};
use crate::consts::{
    file_of, forward, is_reserve_kind, opponent, piece_at_index, piece_index, promoted, rank_of,
    square_at, Piece, Side,
};
use crate::moves::{lemma_move_eq, list_get, list_len, list_moves, list_new, list_push, Move, MoveList};
use vstd::prelude::*;

verus! {

/// The far three ranks of `side`, where its pieces may promote.
pub open spec fn in_zone(side: Side, sq: int) -> bool {
    match side {
        Side::Sente => rank_of(sq) >= 6,
        Side::Gote => rank_of(sq) <= 2,
    }
}

/// Ranks from which a piece of `p` could never move again: the farthest rank
/// for a pawn or lance, the farthest two for a knight.
pub open spec fn must_promote(p: Piece, side: Side, dst: int) -> bool {
    let depth = match side {
        Side::Sente => rank_of(dst),
        Side::Gote => 8 - rank_of(dst),
    };
    ((p == Piece::Pawn || p == Piece::Lance) && depth == 8) || (p == Piece::Knight && depth >= 7)
}

/// Promoting is allowed when the kind has a promoted form and the move starts
/// or ends in the zone; declining is allowed unless the piece could not move again.
pub open spec fn promotion_ok(p: Piece, side: Side, src: int, dst: int, promote: bool) -> bool {
    if promote {
        promoted(p) is Some && (in_zone(side, src) || in_zone(side, dst))
    } else {
        !must_promote(p, side, dst)
    }
}

impl Board {
    /// A pseudo-legal board move of the side to move: its piece on the source
    /// reaches the destination, which it does not hold itself, under the
    /// promotion policy.
    pub open spec fn is_board_move(&self, m: Move) -> bool {
        let src = m.src_spec();
        let dst = m.dst_spec();
        let p = kind_of(self.occupant(src));
        &&& !m.drop_spec()
        &&& src < 81
        &&& dst < 81
        &&& held_by(self.occupant(src), self.to_move())
        &&& on(piece_attacks(p, self.to_move(), src, self.occ_mask()), dst)
        &&& !held_by(self.occupant(dst), self.to_move())
        &&& promotion_ok(p, self.to_move(), src, dst, m.promo_spec())
    }

    /// `side` has an unpromoted pawn on file `f`.
    pub open spec fn pawn_on_file(&self, side: Side, f: int) -> bool {
        exists|r: int| 0 <= r < 9 && #[trigger] self.occupant(square_at(r, f)) == Some((side, Piece::Pawn))
    }

    /// A placement of a held base kind on an empty square, unpromoted; a pawn
    /// not on a file where the mover already has an unpromoted pawn, and not
    /// where it would mate at once.
    pub open spec fn is_drop_move(&self, m: Move) -> bool {
        let p = piece_at_index(m.src_spec())->0;
        &&& m.drop_spec()
        &&& !m.promo_spec()
        &&& m.dst_spec() < 81
        &&& piece_at_index(m.src_spec()) is Some
        &&& is_reserve_kind(p)
        &&& self.hand_of(self.to_move()).count_of(p) > 0
        &&& self.occupant(m.dst_spec()) is None
        &&& (p == Piece::Pawn ==> !self.pawn_on_file(self.to_move(), file_of(m.dst_spec())))
        &&& (p == Piece::Pawn ==> !self.drop_mates(m.dst_spec()))
    }

    /// The piece of `by` on `a` attacks `sq`.
    pub open spec fn attacks_square(&self, a: int, sq: int, by: Side) -> bool {
        &&& 0 <= a < 81
        &&& held_by(self.occupant(a), by)
        &&& on(piece_attacks(kind_of(self.occupant(a)), by, a, self.occ_mask()), sq)
    }

    /// `k` is the (lowest) square of a king of `side`.
    pub open spec fn king_at(&self, side: Side, k: int) -> bool {
        &&& 0 <= k < 81
        &&& self.occupant(k) == Some((side, Piece::King))
        &&& forall|j: int| 0 <= j < k ==> #[trigger] self.occupant(j) != Some((side, Piece::King))
    }

    /// `side` has a king and the other side attacks it.
    pub open spec fn king_attacked(&self, side: Side) -> bool {
        exists|k: int, a: int|
            #![trigger self.king_at(side, k), self.attacks_square(a, k, opponent(side))]
            self.king_at(side, k) && self.attacks_square(a, k, opponent(side))
    }

    /// The side to move has a king and it is attacked.
    pub open spec fn in_check(&self) -> bool {
        self.king_attacked(self.to_move())
    }

    /// In `after`, the side to move is in check and every board move it has
    /// leaves its king attacked.
    pub open spec fn no_escape(after: Board) -> bool {
        &&& after.king_attacked(after.to_move())
        &&& forall|r: Move, b2: Board|
            #![trigger after.applied(r, b2)]
            after.is_board_move(r) && after.applied(r, b2) ==> b2.king_attacked(after.to_move())
    }

    /// Placing a pawn on `sq` mates at once: the other side is in check and no
    /// board move of it removes the attack (a placement cannot answer the check
    /// of a pawn, which stands next to the king).
    pub open spec fn drop_mates(&self, sq: int) -> bool {
        forall|m: Move, after: Board|
            #![trigger self.applied(m, after)]
            m.drop_spec() && m.src_spec() == 0 && m.dst_spec() == sq && self.applied(m, after)
                ==> Board::no_escape(after)
    }

    /// Number of pseudo-legal moves of the side to move.
    pub open spec fn move_total(&self) -> nat {
        Set::new(|m: Move| self.is_pseudo_legal(m)).len()
    }

    pub open spec fn is_pseudo_legal(&self, m: Move) -> bool {
        self.is_board_move(m) || self.is_drop_move(m)
    }

    /// Every move of the list is pseudo-legal.
    pub open spec fn all_pseudo_legal(&self, l: Seq<Move>) -> bool {
        forall|i: int| 0 <= i < l.len() ==> self.is_pseudo_legal(#[trigger] l[i])
    }

    /// Every move of the list is a pseudo-legal board move.
    pub open spec fn all_board_moves(&self, l: Seq<Move>) -> bool {
        forall|i: int| 0 <= i < l.len() ==> self.is_board_move(#[trigger] l[i])
    }
}

/// `a` is `b` with moves appended.
pub open spec fn extends(a: Seq<Move>, b: Seq<Move>) -> bool {
    &&& b.len() <= a.len()
    &&& forall|i: int| 0 <= i < b.len() ==> #[trigger] a[i] == b[i]
}

/// Whether `sq` is in the promotion zone of `side`.
pub fn in_promo_zone(side: Side, sq: u8) -> (r: bool)
    ensures
        r == in_zone(side, sq as int),
{
    match side {
        Side::Sente => sq / 9 >= 6,
        Side::Gote => sq / 9 <= 2,
    }
}

/// Whether a `piece` of `side` reaching `sq` must promote.
pub fn in_must_promo_zone(piece: Piece, side: Side, sq: u8) -> (r: bool)
    requires
        sq < 81,
    ensures
        r == must_promote(piece, side, sq as int),
{
    let depth: u8 = match side {
        Side::Sente => sq / 9,
        Side::Gote => 8 - sq / 9,
    };
    ((piece == Piece::Pawn || piece == Piece::Lance) && depth == 8) || (piece == Piece::Knight && depth >= 7)
}

/// Appending a move that is not there keeps a list free of repeats.
proof fn lemma_push_fresh(l: Seq<Move>, m: Move)
    requires
        l.no_duplicates(),
        !l.contains(m),
    ensures
        l.push(m).no_duplicates(),
{
    let n = l.push(m);
    assert forall|i: int, j: int| 0 <= i < n.len() && 0 <= j < n.len() && i != j implies n[i] != n[j] by {
        if i < l.len() && j < l.len() {
            assert(n[i] == l[i] && n[j] == l[j]);
        } else if i < l.len() {
            assert(n[i] == l[i]);
        } else if j < l.len() {
            assert(n[j] == l[j]);
        }
    }
}

/// No board move from `src` to `dst` is in `l`.
pub open spec fn no_pair(l: Seq<Move>, src: int, dst: int) -> bool {
    forall|i: int| 0 <= i < l.len() ==> (#[trigger] l[i]).drop_spec() || l[i].src_spec() != src || l[i].dst_spec() != dst
}

/// Appends `m` unless the list is full.
fn push_if_room(list: &mut MoveList, m: Move)
    ensures
        extends(list_moves(*final(list)), list_moves(*old(list))),
        list_moves(*final(list)).len() <= list_moves(*old(list)).len() + 1,
        list_moves(*final(list)).len() < 600 ==> list_moves(*final(list)) == list_moves(*old(list)).push(m),
        list_moves(*final(list)).len() == list_moves(*old(list)).len() + 1 ==> list_moves(*final(list))
            == list_moves(*old(list)).push(m),
        list_moves(*final(list)) == list_moves(*old(list)) || list_moves(*final(list)) == list_moves(
            *old(list),
        ).push(m),
{
    if list_len(list) < 600 {
        list_push(list, m);
    }
}

impl Board {
    /// Appends the moves from `src` to `dst` that the promotion policy allows.
    fn add_moves(&self, move_list: &mut MoveList, src: u8, dst: u8, piece: Piece)
        requires
            self.wf(),
            src < 81,
            dst < 81,
            self.occupant(src as int) == Some((self.to_move(), piece)),
            on(piece_attacks(piece, self.to_move(), src as int, self.occ_mask()), dst as int),
            !held_by(self.occupant(dst as int), self.to_move()),
            self.all_board_moves(list_moves(*old(move_list))),
            list_moves(*old(move_list)).no_duplicates(),
            no_pair(list_moves(*old(move_list)), src as int, dst as int),
        ensures
            self.all_board_moves(list_moves(*final(move_list))),
            extends(list_moves(*final(move_list)), list_moves(*old(move_list))),
            list_moves(*final(move_list)).len() < 600 ==> forall|m: Move|
                #![trigger list_moves(*final(move_list)).contains(m)]
                self.is_board_move(m) && m.src_spec() == src && m.dst_spec() == dst
                    ==> list_moves(*final(move_list)).contains(m),
            list_moves(*final(move_list)).no_duplicates(),
            forall|i: int|
                list_moves(*old(move_list)).len() <= i < list_moves(*final(move_list)).len() ==> !(#[trigger] list_moves(
                    *final(move_list),
                )[i]).drop_spec() && list_moves(*final(move_list))[i].src_spec() == src && list_moves(
                    *final(move_list),
                )[i].dst_spec() == dst,
    {
        let stm = self.stm();
        let can_promo = piece.can_promote() && (in_promo_zone(stm, src) || in_promo_zone(stm, dst));
        let must_promo = in_must_promo_zone(piece, stm, dst);
        let ghost l0 = list_moves(*move_list);
        let promo_move = Move::new(src, dst, true);
        let plain_move = Move::new(src, dst, false);
        if can_promo {
            proof {
                if l0.contains(promo_move) {
                    let k = choose|k: int| 0 <= k < l0.len() && l0[k] == promo_move;
                }
                lemma_push_fresh(l0, promo_move);
            }
            push_if_room(move_list, promo_move);
        }
        let ghost l1 = list_moves(*move_list);
        if !must_promo {
            proof {
                if l1.contains(plain_move) {
                    let k = choose|k: int| 0 <= k < l1.len() && l1[k] == plain_move;
                    if k < l0.len() {
                        assert(l1[k] == l0[k]);
                    }
                }
                lemma_push_fresh(l1, plain_move);
            }
            push_if_room(move_list, plain_move);
        }
        let ghost l2 = list_moves(*move_list);
        proof {
            assert forall|i: int| l0.len() <= i < l2.len() implies !(#[trigger] l2[i]).drop_spec() && l2[i].src_spec() == src
                && l2[i].dst_spec() == dst by {
                if i < l1.len() {
                    assert(l2[i] == l1[i]);
                }
            }
            assert forall|i: int| 0 <= i < l2.len() implies self.is_board_move(#[trigger] l2[i]) by {
                if i < l0.len() {
                    assert(l2[i] == l0[i]);
                } else if i < l1.len() {
                    assert(l2[i] == l1[i]);
                }
            }
            if l2.len() < 600 {
                assert forall|m: Move|
                    self.is_board_move(m) && m.src_spec() == src && m.dst_spec() == dst implies #[trigger] l2.contains(
                    m,
                ) by {
                    if m.promo_spec() {
                        lemma_move_eq(m, promo_move);
                        assert(l1[l1.len() - 1] == promo_move);
                        assert(l2[l1.len() - 1] == promo_move);
                    } else {
                        lemma_move_eq(m, plain_move);
                        assert(l2[l2.len() - 1] == plain_move);
                    }
                }
            }
        }
    }

    /// Appends the moves of every `piece` of the side to move, one table lookup
    /// per piece.
    fn generate(&self, t: &Tables, move_list: &mut MoveList, piece: Piece, occ: u128)
        requires
            self.wf(),
            t.wf(),
            occ == self.occ_mask(),
            self.all_board_moves(list_moves(*old(move_list))),
            list_moves(*old(move_list)).no_duplicates(),
            forall|i: int|
                0 <= i < list_moves(*old(move_list)).len() ==> kind_of(
                    self.occupant((#[trigger] list_moves(*old(move_list))[i]).src_spec()),
                ) != piece,
        ensures
            self.all_board_moves(list_moves(*final(move_list))),
            extends(list_moves(*final(move_list)), list_moves(*old(move_list))),
            list_moves(*final(move_list)).len() < 600 ==> forall|m: Move|
                #![trigger list_moves(*final(move_list)).contains(m)]
                self.is_board_move(m) && kind_of(self.occupant(m.src_spec())) == piece
                    ==> list_moves(*final(move_list)).contains(m),
            list_moves(*final(move_list)).no_duplicates(),
            forall|i: int|
                list_moves(*old(move_list)).len() <= i < list_moves(*final(move_list)).len() ==> kind_of(
                    self.occupant((#[trigger] list_moves(*final(move_list))[i]).src_spec()),
                ) == piece,
    {
        let stm = self.stm();
        let friendlies = self.side(stm);
        let mut pieces = self.pieces(piece, stm);
        let ghost all = pieces;
        let ghost l0 = list_moves(*move_list);
        while pieces != 0
            invariant
                self.wf(),
                t.wf(),
                occ == self.occ_mask(),
                stm == self.to_move(),
                forall|i: u128| i < 128 ==> #[trigger] bit(friendlies, i) == (i < 81 && held_by(self.occupant(i as int), stm)),
                forall|i: u128| i < 128 ==> #[trigger] bit(all, i) == (i < 81 && self.occupant(i as int) == Some((stm, piece))),
                forall|i: u128| i < 128 && #[trigger] bit(pieces, i) ==> bit(all, i),
                self.all_board_moves(list_moves(*move_list)),
                extends(list_moves(*move_list), l0),
                list_moves(*move_list).no_duplicates(),
                forall|i: int| 0 <= i < l0.len() ==> kind_of(self.occupant((#[trigger] l0[i]).src_spec())) != piece,
                forall|i: int|
                    l0.len() <= i < list_moves(*move_list).len() ==> self.occupant(
                        (#[trigger] list_moves(*move_list)[i]).src_spec(),
                    ) == Some((stm, piece)) && !bit(pieces, list_moves(*move_list)[i].src_spec() as u128),
                list_moves(*move_list).len() < 600 ==> forall|m: Move|
                    #![trigger list_moves(*move_list).contains(m)]
                    self.is_board_move(m) && kind_of(self.occupant(m.src_spec())) == piece && !bit(
                        pieces,
                        m.src_spec() as u128,
                    ) ==> list_moves(*move_list).contains(m),
            decreases pieces,
        {
            let src = lsb(pieces);
            let a = attacks(t, src, piece, stm, occ);
            let mut targets = a & !friendlies;
            proof {
                lemma_and_not(a, friendlies);
            }
            let ghost all_targets = targets;
            let ghost l1 = list_moves(*move_list);
            proof {
                crate::bits::lemma_low_index(pieces);
            }
            while targets != 0
                invariant
                    self.wf(),
                    src < 81,
                    self.occupant(src as int) == Some((stm, piece)),
                    stm == self.to_move(),
                    occ == self.occ_mask(),
                    forall|i: u128| i < 128 ==> #[trigger] bit(all_targets, i) == (bit(a, i) && !bit(friendlies, i)),
                    forall|i: u128| i < 128 ==> #[trigger] bit(friendlies, i) == (i < 81 && held_by(self.occupant(i as int), stm)),
                    a == piece_attacks(piece, stm, src as int, occ),
                    within_board(a),
                    forall|i: u128| i < 128 && #[trigger] bit(targets, i) ==> bit(all_targets, i),
                    self.all_board_moves(list_moves(*move_list)),
                    extends(list_moves(*move_list), l1),
                    list_moves(*move_list).no_duplicates(),
                    l0.len() <= l1.len(),
                    bit(pieces, src as u128),
                    forall|i: int| 0 <= i < l0.len() ==> kind_of(self.occupant((#[trigger] l0[i]).src_spec())) != piece,
                    forall|i: int| 0 <= i < l0.len() ==> #[trigger] l1[i] == l0[i],
                    forall|i: int|
                        l0.len() <= i < l1.len() ==> self.occupant((#[trigger] l1[i]).src_spec()) == Some((stm, piece))
                            && !bit(pieces, l1[i].src_spec() as u128),
                    forall|i: int|
                        l1.len() <= i < list_moves(*move_list).len() ==> !(#[trigger] list_moves(*move_list)[i]).drop_spec()
                            && list_moves(*move_list)[i].src_spec() == src && !bit(
                            targets,
                            list_moves(*move_list)[i].dst_spec() as u128,
                        ),
                    list_moves(*move_list).len() < 600 ==> forall|m: Move|
                        #![trigger list_moves(*move_list).contains(m)]
                        self.is_board_move(m) && m.src_spec() == src && !bit(targets, m.dst_spec() as u128)
                            ==> list_moves(*move_list).contains(m),
                decreases targets,
            {
                let dst = lsb(targets);
                proof {
                    crate::bits::lemma_within_high(a);
                }
                let ghost before = list_moves(*move_list);
                proof {
                    assert forall|i: int| 0 <= i < before.len() implies (#[trigger] before[i]).drop_spec() || before[i].src_spec()
                        != src || before[i].dst_spec() != dst by {
                        if i < l0.len() {
                            assert(before[i] == l1[i]);
                            assert(l1[i] == l0[i]);
                        } else if i < l1.len() {
                            assert(before[i] == l1[i]);
                        }
                    }
                }
                self.add_moves(move_list, src, dst, piece);
                let ghost after = list_moves(*move_list);
                let ghost old_targets = targets;
                targets = pop(targets);
                proof {
                    assert forall|i: int|
                        l1.len() <= i < after.len() implies !(#[trigger] after[i]).drop_spec() && after[i].src_spec() == src
                            && !bit(targets, after[i].dst_spec() as u128) by {
                        if i < before.len() {
                            assert(after[i] == before[i]);
                        }
                    }
                    if after.len() < 600 {
                        assert forall|m: Move|
                            self.is_board_move(m) && m.src_spec() == src && !bit(targets, m.dst_spec() as u128) implies #[trigger] after.contains(m) by {
                            if m.dst_spec() == dst {
                            } else {
                                assert(!bit(old_targets, m.dst_spec() as u128));
                                assert(before.contains(m));
                                let j = choose|j: int| 0 <= j < before.len() && before[j] == m;
                                assert(after[j] == m);
                            }
                        }
                    }
                }
            }
            let ghost l2 = list_moves(*move_list);
            let ghost old_pieces = pieces;
            pieces = pop(pieces);
            proof {
                assert forall|i: int|
                    l0.len() <= i < l2.len() implies self.occupant((#[trigger] l2[i]).src_spec()) == Some((stm, piece)) && !bit(
                    pieces,
                    l2[i].src_spec() as u128,
                ) by {
                    if i < l1.len() {
                        assert(l2[i] == l1[i]);
                    } else {
                        assert(l2[i].src_spec() == src);
                    }
                }
                assert(extends(l2, l0)) by {
                    assert forall|i: int| 0 <= i < l0.len() implies #[trigger] l2[i] == l0[i] by {
                        assert(l1[i] == l0[i]);
                    }
                }
                if l2.len() < 600 {
                    assert forall|m: Move|
                        self.is_board_move(m) && kind_of(self.occupant(m.src_spec())) == piece && !bit(
                            pieces,
                            m.src_spec() as u128,
                        ) implies #[trigger] l2.contains(m) by {
                        if m.src_spec() == src {
                            crate::bits::lemma_zero();
                            assert(!bit(targets, m.dst_spec() as u128));
                        } else {
                            assert(!bit(old_pieces, m.src_spec() as u128));
                            assert(l1.contains(m));
                            let j = choose|j: int| 0 <= j < l1.len() && l1[j] == m;
                            assert(l2[j] == m);
                        }
                    }
                }
            }
        }
        proof {
            crate::bits::lemma_zero();
        }
    }

    /// The pawn square ahead of `src` for `side` is `dst` exactly when `dst` is
    /// one rank forward on the same file.
    proof fn lemma_pawn_step(side: Side, src: int, dst: int)
        requires
            0 <= src < 81,
            0 <= dst < 81,
        ensures
            on(piece_attacks(Piece::Pawn, side, src, 0), dst) <==> dst == src + 9 * forward(side),
    {
        let pat = crate::attacks::pawn_pattern(side);
        assert(pat.drop_last() =~= Seq::<(i8, i8)>::empty());
        assert(crate::attacks::leaps(src, pat.drop_last()) == 0);
        assert(pat.last().0 as int == forward(side));
        assert(pat.last().1 as int == 0);
        let l = crate::attacks::leap(src, forward(side), 0);
        crate::magics::lemma_or_zero(l);
        assert(crate::attacks::leaps(src, pat) == l);
        crate::bits::lemma_zero();
        let r = rank_of(src) + forward(side);
        let f = crate::consts::file_of(src);
        if crate::magics::on_board(r, f) {
            let t = crate::consts::square_at(r, f);
            assert(t == src + 9 * forward(side));
            crate::bits::lemma_single(t as u128);
        }
    }

    /// Appends the pawn moves of the side to move: all pawns pushed one rank at
    /// once, each destination mapped back to its source.
    fn generate_pawns(&self, move_list: &mut MoveList)
        requires
            self.wf(),
            self.all_board_moves(list_moves(*old(move_list))),
            list_moves(*old(move_list)).no_duplicates(),
            forall|i: int|
                0 <= i < list_moves(*old(move_list)).len() ==> kind_of(
                    self.occupant((#[trigger] list_moves(*old(move_list))[i]).src_spec()),
                ) != Piece::Pawn,
        ensures
            self.all_board_moves(list_moves(*final(move_list))),
            extends(list_moves(*final(move_list)), list_moves(*old(move_list))),
            list_moves(*final(move_list)).len() < 600 ==> forall|m: Move|
                #![trigger list_moves(*final(move_list)).contains(m)]
                self.is_board_move(m) && kind_of(self.occupant(m.src_spec())) == Piece::Pawn
                    ==> list_moves(*final(move_list)).contains(m),
            list_moves(*final(move_list)).no_duplicates(),
            forall|i: int|
                list_moves(*old(move_list)).len() <= i < list_moves(*final(move_list)).len() ==> kind_of(
                    self.occupant((#[trigger] list_moves(*final(move_list))[i]).src_spec()),
                ) == Piece::Pawn,
    {
        let stm = self.stm();
        let own = self.pawns(stm);
        let friendlies = self.side(stm);
        let push = pawns(own, stm);
        let mut targets = push & !friendlies;
        proof {
            lemma_and_not(push, friendlies);
            lemma_within_ops(push, friendlies);
        }
        let ghost all_targets = targets;
        let ghost l0 = list_moves(*move_list);
        proof {
            assert forall|m: Move|
                self.is_board_move(m) && kind_of(self.occupant(m.src_spec())) == Piece::Pawn implies bit(
                targets,
                m.dst_spec() as u128,
            ) by {
                crate::attacks::lemma_pawn_reach(stm, m.src_spec(), self.occ_mask());
                Board::lemma_pawn_step(stm, m.src_spec(), m.dst_spec());
                assert(bit(own, m.src_spec() as u128));
                assert(bit(push, m.dst_spec() as u128));
            }
        }
        while targets != 0
            invariant
                self.wf(),
                stm == self.to_move(),
                forall|i: u128| i < 128 ==> #[trigger] bit(own, i) == (i < 81 && self.occupant(i as int) == Some((stm, Piece::Pawn))),
                forall|i: u128| i < 128 ==> #[trigger] bit(friendlies, i) == (i < 81 && held_by(self.occupant(i as int), stm)),
                forall|i: u128| i < 128 ==> #[trigger] bit(push, i) == (i < 81 && 0 <= i - 9 * forward(stm) < 81 && bit(own, (i - 9 * forward(stm)) as u128)),
                forall|i: u128| i < 128 ==> #[trigger] bit(all_targets, i) == (bit(push, i) && !bit(friendlies, i)),
                forall|i: u128| i < 128 && #[trigger] bit(targets, i) ==> bit(all_targets, i),
                self.all_board_moves(list_moves(*move_list)),
                extends(list_moves(*move_list), l0),
                list_moves(*move_list).no_duplicates(),
                forall|i: int| 0 <= i < l0.len() ==> kind_of(self.occupant((#[trigger] l0[i]).src_spec())) != Piece::Pawn,
                forall|i: int|
                    l0.len() <= i < list_moves(*move_list).len() ==> !(#[trigger] list_moves(*move_list)[i]).drop_spec()
                        && kind_of(self.occupant(list_moves(*move_list)[i].src_spec())) == Piece::Pawn && !bit(
                        targets,
                        list_moves(*move_list)[i].dst_spec() as u128,
                    ),
                list_moves(*move_list).len() < 600 ==> forall|m: Move|
                    #![trigger list_moves(*move_list).contains(m)]
                    self.is_board_move(m) && kind_of(self.occupant(m.src_spec())) == Piece::Pawn && !bit(
                        targets,
                        m.dst_spec() as u128,
                    ) ==> list_moves(*move_list).contains(m),
            decreases targets,
        {
            let dst = lsb(targets);
            let src: u8 = match stm {
                Side::Sente => dst - 9,
                Side::Gote => dst + 9,
            };
            proof {
                assert(bit(push, dst as u128));
                assert(bit(own, src as u128));
                Board::lemma_pawn_step(stm, src as int, dst as int);
                crate::attacks::lemma_pawn_reach(stm, src as int, self.occ_mask());
            }
            let ghost before = list_moves(*move_list);
            proof {
                assert forall|i: int| 0 <= i < before.len() implies (#[trigger] before[i]).drop_spec() || before[i].src_spec()
                    != src || before[i].dst_spec() != dst by {
                    if i < l0.len() {
                        assert(before[i] == l0[i]);
                    }
                }
            }
            self.add_moves(move_list, src, dst, Piece::Pawn);
            let ghost after = list_moves(*move_list);
            let ghost old_targets = targets;
            targets = pop(targets);
            proof {
                assert forall|i: int|
                    l0.len() <= i < after.len() implies !(#[trigger] after[i]).drop_spec() && kind_of(
                        self.occupant(after[i].src_spec()),
                    ) == Piece::Pawn && !bit(targets, after[i].dst_spec() as u128) by {
                    if i < before.len() {
                        assert(after[i] == before[i]);
                    } else {
                        assert(after[i].src_spec() == src);
                    }
                }
                if after.len() < 600 {
                    assert forall|m: Move|
                        self.is_board_move(m) && kind_of(self.occupant(m.src_spec())) == Piece::Pawn && !bit(
                            targets,
                            m.dst_spec() as u128,
                        ) implies #[trigger] after.contains(m) by {
                        if m.dst_spec() == dst {
                            crate::attacks::lemma_pawn_reach(stm, m.src_spec(), self.occ_mask());
                            Board::lemma_pawn_step(stm, m.src_spec(), m.dst_spec());
                        } else {
                            assert(!bit(old_targets, m.dst_spec() as u128));
                            assert(before.contains(m));
                            let j = choose|j: int| 0 <= j < before.len() && before[j] == m;
                            assert(after[j] == m);
                        }
                    }
                }
            }
        }
        proof {
            crate::bits::lemma_zero();
            if list_moves(*move_list).len() < 600 {
                assert forall|m: Move|
                    self.is_board_move(m) && kind_of(self.occupant(m.src_spec())) == Piece::Pawn implies #[trigger] list_moves(
                    *move_list,
                ).contains(m) by {
                    assert(!bit(targets, m.dst_spec() as u128));
                }
            }
        }
    }

    /// Whether `side` has an unpromoted pawn on file `file`.
    pub fn has_pawn_on_file(&self, side: Side, file: u8) -> (r: bool)
        requires
            self.wf(),
            file < 9,
        ensures
            r == self.pawn_on_file(side, file as int),
    {
        let mut rank: u8 = 0;
        while rank < 9
            invariant
                rank <= 9,
                file < 9,
                self.wf(),
                forall|r: int| 0 <= r < rank ==> #[trigger] self.occupant(square_at(r, file as int)) != Some(
                    (side, Piece::Pawn),
                ),
            decreases 9 - rank,
        {
            let sq = rank * 9 + file;
            let p = self.piece_at(sq);
            let s = self.side_at(sq);
            if p == Some(Piece::Pawn) && s == Some(side) {
                assert(self.occupant(square_at(rank as int, file as int)) == Some((side, Piece::Pawn)));
                return true;
            }
            rank += 1;
        }
        false
    }

    /// Appends the placements of `piece` from the reserve of the side to move.
    fn generate_drops(&self, t: &Tables, move_list: &mut MoveList, piece: Piece)
        requires
            self.wf(),
            t.wf(),
            is_reserve_kind(piece),
            self.all_pseudo_legal(list_moves(*old(move_list))),
            list_moves(*old(move_list)).no_duplicates(),
            forall|i: int|
                0 <= i < list_moves(*old(move_list)).len() ==> !(#[trigger] list_moves(*old(move_list))[i]).drop_spec()
                    || list_moves(*old(move_list))[i].src_spec() != piece_index(piece),
        ensures
            list_moves(*final(move_list)).no_duplicates(),
            forall|i: int|
                list_moves(*old(move_list)).len() <= i < list_moves(*final(move_list)).len() ==> (#[trigger] list_moves(
                    *final(move_list),
                )[i]).drop_spec() && list_moves(*final(move_list))[i].src_spec() == piece_index(piece),
            self.all_pseudo_legal(list_moves(*final(move_list))),
            extends(list_moves(*final(move_list)), list_moves(*old(move_list))),
            list_moves(*final(move_list)).len() < 600 ==> forall|m: Move|
                #![trigger list_moves(*final(move_list)).contains(m)]
                self.is_drop_move(m) && piece_at_index(m.src_spec()) == Some(piece)
                    ==> list_moves(*final(move_list)).contains(m),
    {
        let stm = self.stm();
        if !self.hand(stm).has(piece) {
            return;
        }
        let index = piece.idx() as u8;
        let ghost l0 = list_moves(*move_list);
        let mut sq: u8 = 0;
        while sq < 81
            invariant
                sq <= 81,
                self.wf(),
                t.wf(),
                stm == self.to_move(),
                is_reserve_kind(piece),
                index == piece_index(piece),
                self.hand_of(stm).count_of(piece) > 0,
                self.all_pseudo_legal(list_moves(*move_list)),
                extends(list_moves(*move_list), l0),
                list_moves(*move_list).no_duplicates(),
                forall|i: int| 0 <= i < l0.len() ==> !(#[trigger] l0[i]).drop_spec() || l0[i].src_spec() != piece_index(piece),
                forall|i: int|
                    l0.len() <= i < list_moves(*move_list).len() ==> (#[trigger] list_moves(*move_list)[i]).drop_spec()
                        && list_moves(*move_list)[i].src_spec() == piece_index(piece) && list_moves(*move_list)[i].dst_spec() < sq,
                list_moves(*move_list).len() < 600 ==> forall|m: Move|
                    #![trigger list_moves(*move_list).contains(m)]
                    self.is_drop_move(m) && piece_at_index(m.src_spec()) == Some(piece) && m.dst_spec()
                        < sq ==> list_moves(*move_list).contains(m),
            decreases 81 - sq,
        {
            let ghost before = list_moves(*move_list);
            let empty = self.piece_at(sq).is_none();
            let mut allowed = empty;
            if empty && piece == Piece::Pawn {
                allowed = !self.has_pawn_on_file(stm, sq % 9) && !self.pawn_drop_mates(t, sq);
            }
            let m = Move::drop(index, sq);
            if allowed {
                proof {
                    if before.contains(m) {
                        let k = choose|k: int| 0 <= k < before.len() && before[k] == m;
                        if k < l0.len() {
                            assert(before[k] == l0[k]);
                        }
                    }
                    lemma_push_fresh(before, m);
                }
                push_if_room(move_list, m);
            }
            let ghost after = list_moves(*move_list);
            proof {
                assert(piece_at_index(index as int) == Some(piece));
                assert forall|i: int|
                    l0.len() <= i < after.len() implies (#[trigger] after[i]).drop_spec() && after[i].src_spec() == piece_index(piece)
                        && after[i].dst_spec() < sq + 1 by {
                    if i < before.len() {
                        assert(after[i] == before[i]);
                    }
                }
                assert forall|i: int| 0 <= i < after.len() implies self.is_pseudo_legal(#[trigger] after[i]) by {
                    if i < before.len() {
                        assert(after[i] == before[i]);
                    }
                }
                if after.len() < 600 {
                    assert forall|x: Move|
                        self.is_drop_move(x) && piece_at_index(x.src_spec()) == Some(piece) && x.dst_spec() < sq
                            + 1 implies #[trigger] after.contains(x) by {
                        if x.dst_spec() == sq {
                            lemma_move_eq(x, m);
                            assert(after[after.len() - 1] == m);
                        } else {
                            assert(before.contains(x));
                            let j = choose|j: int| 0 <= j < before.len() && before[j] == x;
                            assert(after[j] == x);
                        }
                    }
                }
            }
            sq += 1;
        }
    }

    /// All pseudo-legal moves of the side to move: board moves of every piece,
    /// then placements from its reserve. Moves that leave the mover's own king
    /// attacked are not filtered out. Should a position have more moves than the
    /// list holds, the list ends full.
    pub fn generate_moves(&self, t: &Tables) -> (r: MoveList)
        requires
            self.wf(),
            t.wf(),
        ensures
            self.all_pseudo_legal(list_moves(r)),
            list_moves(r).len() < 600 ==> forall|m: Move|
                #![trigger list_moves(r).contains(m)]
                self.is_pseudo_legal(m) ==> list_moves(r).contains(m),
            list_moves(r).no_duplicates(),
    {
        let mut moves = list_new();
        let occ = self.occ();
        self.generate_pawns(&mut moves);
        let ghost after_pawns = list_moves(moves);
        let kinds: [Piece; 13] = [
            Piece::Lance,
            Piece::Knight,
            Piece::Silver,
            Piece::Gold,
            Piece::Bishop,
            Piece::Rook,
            Piece::PromotedPawn,
            Piece::PromotedLance,
            Piece::PromotedKnight,
            Piece::PromotedSilver,
            Piece::PromotedBishop,
            Piece::PromotedRook,
            Piece::King,
        ];
        proof {
            assert forall|j: int| 0 <= j < 13 implies piece_index(#[trigger] kinds@[j]) == j + 1 by {}
            assert forall|j: int| 0 <= j < after_pawns.len() implies piece_index(
                kind_of(self.occupant((#[trigger] after_pawns[j]).src_spec())),
            ) <= 0 by {}
        }
        let mut i: usize = 0;
        while i < 13
            invariant
                forall|j: int| 0 <= j < 13 ==> piece_index(#[trigger] kinds@[j]) == j + 1,
                list_moves(moves).no_duplicates(),
                forall|j: int|
                    0 <= j < list_moves(moves).len() ==> piece_index(
                        kind_of(self.occupant((#[trigger] list_moves(moves)[j]).src_spec())),
                    ) <= i,
                i <= 13,
                self.wf(),
                t.wf(),
                occ == self.occ_mask(),
                self.all_board_moves(list_moves(moves)),
                extends(list_moves(moves), after_pawns),
                list_moves(moves).len() < 600 ==> forall|m: Move|
                    #![trigger list_moves(moves).contains(m)]
                    self.is_board_move(m) && (kind_of(self.occupant(m.src_spec())) == Piece::Pawn
                        || exists|j: int| 0 <= j < i && kinds@[j] == kind_of(self.occupant(m.src_spec())))
                        ==> list_moves(moves).contains(m),
            decreases 13 - i,
        {
            let ghost before = list_moves(moves);
            proof {
                assert forall|j: int| 0 <= j < before.len() implies kind_of(
                    self.occupant((#[trigger] before[j]).src_spec()),
                ) != kinds@[i as int] by {
                    assert(piece_index(kind_of(self.occupant(before[j].src_spec()))) <= i);
                }
            }
            self.generate(t, &mut moves, kinds[i], occ);
            let ghost after = list_moves(moves);
            proof {
                assert forall|j: int| 0 <= j < after.len() implies piece_index(
                    kind_of(self.occupant((#[trigger] after[j]).src_spec())),
                ) <= i + 1 by {
                    if j < before.len() {
                        assert(after[j] == before[j]);
                    }
                }
                if after.len() < 600 {
                    assert forall|m: Move|
                        self.is_board_move(m) && (kind_of(self.occupant(m.src_spec())) == Piece::Pawn
                            || exists|j: int| 0 <= j < i + 1 && kinds@[j] == kind_of(self.occupant(m.src_spec())))
                            implies #[trigger] after.contains(m) by {
                        if kind_of(self.occupant(m.src_spec())) != kinds@[i as int] {
                            assert(before.contains(m));
                            let j = choose|j: int| 0 <= j < before.len() && before[j] == m;
                            assert(after[j] == m);
                        }
                    }
                }
            }
            i += 1;
        }
        let ghost after_board = list_moves(moves);
        proof {
            assert forall|j: int| 0 <= j < after_board.len() implies !(#[trigger] after_board[j]).drop_spec() by {
                assert(self.is_board_move(after_board[j]));
            }
        }
        let reserve: [Piece; 7] = [
            Piece::Pawn,
            Piece::Lance,
            Piece::Knight,
            Piece::Silver,
            Piece::Gold,
            Piece::Bishop,
            Piece::Rook,
        ];
        proof {
            assert forall|j: int| 0 <= j < 7 implies piece_index(#[trigger] reserve@[j]) == j by {}
        }
        let mut k: usize = 0;
        while k < 7
            invariant
                forall|j: int| 0 <= j < 7 ==> piece_index(#[trigger] reserve@[j]) == j,
                list_moves(moves).no_duplicates(),
                forall|j: int|
                    0 <= j < list_moves(moves).len() ==> !(#[trigger] list_moves(moves)[j]).drop_spec() || list_moves(
                        moves,
                    )[j].src_spec() < k,
                k <= 7,
                self.wf(),
                t.wf(),
                forall|j: int| 0 <= j < 7 ==> is_reserve_kind(#[trigger] reserve@[j]),
                self.all_pseudo_legal(list_moves(moves)),
                extends(list_moves(moves), after_board),
                list_moves(moves).len() < 600 ==> forall|m: Move|
                    #![trigger list_moves(moves).contains(m)]
                    self.is_drop_move(m) && (exists|j: int| 0 <= j < k && Some(reserve@[j]) == piece_at_index(m.src_spec()))
                        ==> list_moves(moves).contains(m),
            decreases 7 - k,
        {
            let ghost before = list_moves(moves);
            self.generate_drops(t, &mut moves, reserve[k]);
            let ghost after = list_moves(moves);
            proof {
                assert forall|j: int| 0 <= j < after.len() implies !(#[trigger] after[j]).drop_spec() || after[j].src_spec() < k
                    + 1 by {
                    if j < before.len() {
                        assert(after[j] == before[j]);
                    }
                }
                if after.len() < 600 {
                    assert forall|m: Move|
                        self.is_drop_move(m) && (exists|j: int| 0 <= j < k + 1 && Some(reserve@[j]) == piece_at_index(m.src_spec()))
                            implies #[trigger] after.contains(m) by {
                        if piece_at_index(m.src_spec()) != Some(reserve@[k as int]) {
                            assert(before.contains(m));
                            let j = choose|j: int| 0 <= j < before.len() && before[j] == m;
                            assert(after[j] == m);
                        }
                    }
                }
            }
            k += 1;
        }
        proof {
            let l = list_moves(moves);
            if l.len() < 600 {
                assert forall|m: Move| self.is_pseudo_legal(m) implies #[trigger] l.contains(m) by {
                    if self.is_board_move(m) {
                        let p = kind_of(self.occupant(m.src_spec()));
                        if p != Piece::Pawn {
                            assert(exists|j: int| 0 <= j < 13 && kinds@[j] == p) by {
                                match p {
                                    Piece::Lance => assert(kinds@[0] == p),
                                    Piece::Knight => assert(kinds@[1] == p),
                                    Piece::Silver => assert(kinds@[2] == p),
                                    Piece::Gold => assert(kinds@[3] == p),
                                    Piece::Bishop => assert(kinds@[4] == p),
                                    Piece::Rook => assert(kinds@[5] == p),
                                    Piece::PromotedPawn => assert(kinds@[6] == p),
                                    Piece::PromotedLance => assert(kinds@[7] == p),
                                    Piece::PromotedKnight => assert(kinds@[8] == p),
                                    Piece::PromotedSilver => assert(kinds@[9] == p),
                                    Piece::PromotedBishop => assert(kinds@[10] == p),
                                    Piece::PromotedRook => assert(kinds@[11] == p),
                                    Piece::King => assert(kinds@[12] == p),
                                    Piece::Pawn => {},
                                }
                            }
                        }
                        assert(after_board.contains(m));
                        let j = choose|j: int| 0 <= j < after_board.len() && after_board[j] == m;
                        assert(l[j] == m);
                    } else {
                        let p = piece_at_index(m.src_spec())->0;
                        assert(exists|j: int| 0 <= j < 7 && Some(reserve@[j]) == piece_at_index(m.src_spec())) by {
                            match p {
                                Piece::Pawn => assert(reserve@[0] == p),
                                Piece::Lance => assert(reserve@[1] == p),
                                Piece::Knight => assert(reserve@[2] == p),
                                Piece::Silver => assert(reserve@[3] == p),
                                Piece::Gold => assert(reserve@[4] == p),
                                Piece::Bishop => assert(reserve@[5] == p),
                                Piece::Rook => assert(reserve@[6] == p),
                                _ => {},
                            }
                        }
                    }
                }
            }
        }
        moves
    }

    /// The pieces of `side` that attack `sq`. Movement is symmetric: for each
    /// class of piece, the squares from which it attacks `sq` are those that a
    /// piece of that class of the other side would attack from `sq`, so that
    /// pattern is intersected with where the class stands.
    pub fn attackers_to(&self, t: &Tables, sq: u8, side: Side) -> (r: u128)
        requires
            self.wf(),
            t.wf(),
            sq < 81,
        ensures
            within_board(r),
            forall|a: u128|
                a < 128 ==> #[trigger] bit(r, a) == self.attacks_square(a as int, sq as int, side),
    {
        let opp = side.flip();
        let occ = self.occ();
        let kl = self.king_likes(side);
        let pw = self.pawns(side);
        let kn = self.knights(side);
        let sv = self.silvers(side);
        let gl = self.gold_likes(side);
        let ln = self.lances(side);
        let bl = self.bishop_likes(side);
        let rl = self.rook_likes(side);
        let kp = crate::attacks::king(t, sq);
        let pp = crate::attacks::pawn(sq, opp);
        let np = crate::attacks::knight(t, sq, opp);
        let sp = crate::attacks::silver(t, sq, opp);
        let gp = crate::attacks::gold(t, sq, opp);
        let lp = crate::attacks::lance(t, sq, opp, occ);
        let bp = crate::attacks::bishop(t, sq, occ);
        let rp = crate::attacks::rook(t, sq, occ);
        let k = kp & kl;
        let p = pp & pw;
        let n = np & kn;
        let s = sp & sv;
        let g = gp & gl;
        let l = lp & ln;
        let b = bp & bl;
        let ro = rp & rl;
        let attackers = k | p | n | s | g | l | b | ro;
        proof {
            crate::bits::lemma_and(kp, kl);
            crate::bits::lemma_and(pp, pw);
            crate::bits::lemma_and(np, kn);
            crate::bits::lemma_and(sp, sv);
            crate::bits::lemma_and(gp, gl);
            crate::bits::lemma_and(lp, ln);
            crate::bits::lemma_and(bp, bl);
            crate::bits::lemma_and(rp, rl);
            crate::bits::lemma_or(kp, bp);
            crate::bits::lemma_or(kp, rp);
            crate::bits::lemma_or(k, p);
            crate::bits::lemma_or(k | p, n);
            crate::bits::lemma_or(k | p | n, s);
            crate::bits::lemma_or(k | p | n | s, g);
            crate::bits::lemma_or(k | p | n | s | g, l);
            crate::bits::lemma_or(k | p | n | s | g | l, b);
            crate::bits::lemma_or(k | p | n | s | g | l | b, ro);
            crate::magics::lemma_within_and(kl, kp);
            crate::magics::lemma_within_and(pw, pp);
            crate::magics::lemma_within_and(kn, np);
            crate::magics::lemma_within_and(sv, sp);
            crate::magics::lemma_within_and(gl, gp);
            crate::magics::lemma_within_and(ln, lp);
            crate::magics::lemma_within_and(bl, bp);
            crate::magics::lemma_within_and(rl, rp);
            lemma_within_ops(k, p);
            lemma_within_ops(k | p, n);
            lemma_within_ops(k | p | n, s);
            lemma_within_ops(k | p | n | s, g);
            lemma_within_ops(k | p | n | s | g, l);
            lemma_within_ops(k | p | n | s | g | l, b);
            lemma_within_ops(k | p | n | s | g | l | b, ro);
            assert forall|a: u128| a < 128 implies #[trigger] bit(attackers, a) == self.attacks_square(
                a as int,
                sq as int,
                side,
            ) by {
                if a < 81 {
                    crate::symmetry::lemma_piece_sym(
                        kind_of(self.occupant(a as int)),
                        side,
                        sq as int,
                        a as int,
                        self.occ_mask(),
                    );
                }
            }
        }
        attackers
    }

    /// Some piece of `side` attacks `sq`.
    pub fn is_attacked(&self, t: &Tables, sq: u8, side: Side) -> (r: bool)
        requires
            self.wf(),
            t.wf(),
            sq < 81,
        ensures
            r == exists|a: int| #[trigger] self.attacks_square(a, sq as int, side),
    {
        let a = self.attackers_to(t, sq, side);
        proof {
            if a != 0 {
                crate::bits::lemma_low_index(a);
                assert(self.attacks_square(low_index(a) as int, sq as int, side));
            } else {
                crate::bits::lemma_zero();
                assert forall|x: int| !#[trigger] self.attacks_square(x, sq as int, side) by {
                    if 0 <= x < 81 {
                        assert(!bit(a, x as u128));
                    }
                }
            }
        }
        a != 0
    }

    /// `side` has a king, and the other side attacks it.
    pub fn is_king_attacked(&self, t: &Tables, side: Side) -> (r: bool)
        requires
            self.wf(),
            t.wf(),
        ensures
            r == self.king_attacked(side),
    {
        let king_sq = self.king_sq(side);
        if king_sq >= 81 {
            proof {
                assert forall|k: int, a: int| !(self.king_at(side, k) && self.attacks_square(a, k, opponent(side))) by {}
            }
            return false;
        }
        let r = self.is_attacked(t, king_sq, side.flip());
        proof {
            assert(self.king_at(side, king_sq as int));
            assert forall|k: int| #[trigger] self.king_at(side, k) implies k == king_sq by {
                if k < king_sq {
                    assert(self.occupant(k) != Some((side, Piece::King)));
                } else if k > king_sq {
                    assert(self.occupant(king_sq as int) != Some((side, Piece::King)));
                }
            }
            if r {
                let a = choose|a: int| #[trigger] self.attacks_square(a, king_sq as int, opponent(side));
                assert(self.king_at(side, king_sq as int) && self.attacks_square(a, king_sq as int, opponent(side)));
            }
        }
        r
    }

    /// The side to move has a king, and it is attacked by the other side.
    pub fn is_check(&self, t: &Tables) -> (r: bool)
        requires
            self.wf(),
            t.wf(),
        ensures
            r == self.in_check(),
    {
        self.is_king_attacked(t, self.stm())
    }

    /// Whether `m` is a pseudo-legal board move of the side to move.
    pub fn is_board_move_of(&self, t: &Tables, m: Move) -> (r: bool)
        requires
            self.wf(),
            t.wf(),
        ensures
            r == self.is_board_move(m),
    {
        proof {
            m.lemma_fields();
        }
        if m.is_drop() {
            return false;
        }
        let src = m.src().unwrap();
        let dst = m.dst();
        if src >= 81 || dst >= 81 {
            return false;
        }
        let stm = self.stm();
        let piece = match self.piece_at(src) {
            Some(p) => p,
            None => return false,
        };
        if self.side_at(src) != Some(stm) {
            return false;
        }
        if self.side_at(dst) == Some(stm) {
            return false;
        }
        let a = attacks(t, src, piece, stm, self.occ());
        let target = crate::bits::bb(dst);
        proof {
            crate::bits::lemma_bit_test(a, dst as u128);
            assert(target == 1u128 << (dst as u128));
        }
        if a & target == 0 {
            return false;
        }
        if m.is_promo() {
            piece.can_promote() && (in_promo_zone(stm, src) || in_promo_zone(stm, dst))
        } else {
            !in_must_promo_zone(piece, stm, dst)
        }
    }
}

/// Whether `side`'s king is attacked depends only on the squares.
pub proof fn lemma_king_attacked_same(a: Board, b: Board, side: Side)
    requires
        a.wf(),
        b.wf(),
        forall|sq: int| 0 <= sq < 81 ==> #[trigger] a.occupant(sq) == b.occupant(sq),
    ensures
        a.king_attacked(side) == b.king_attacked(side),
{
    Board::lemma_same_occupancy(a, b);
    if a.king_attacked(side) {
        let (k, x) = choose|k: int, x: int| a.king_at(side, k) && a.attacks_square(x, k, opponent(side));
        assert(b.king_at(side, k)) by {
            assert forall|j: int| 0 <= j < k implies #[trigger] b.occupant(j) != Some((side, Piece::King)) by {
                assert(a.occupant(j) != Some((side, Piece::King)));
            }
        }
        assert(b.attacks_square(x, k, opponent(side)));
    }
    if b.king_attacked(side) {
        let (k, x) = choose|k: int, x: int| b.king_at(side, k) && b.attacks_square(x, k, opponent(side));
        assert(a.king_at(side, k)) by {
            assert forall|j: int| 0 <= j < k implies #[trigger] a.occupant(j) != Some((side, Piece::King)) by {
                assert(b.occupant(j) != Some((side, Piece::King)));
            }
        }
        assert(a.attacks_square(x, k, opponent(side)));
    }
}

/// Positions after one move from equal positions have equal squares.
proof fn lemma_applied_squares(a: Board, m: Move, b1: Board, b2: Board)
    requires
        a.is_board_move(m),
        a.applied(m, b1),
        a.applied(m, b2),
    ensures
        forall|sq: int| 0 <= sq < 81 ==> #[trigger] b1.occupant(sq) == b2.occupant(sq),
{
    assert forall|sq: int| 0 <= sq < 81 implies #[trigger] b1.occupant(sq) == b2.occupant(sq) by {
        if sq != m.src_spec() && sq != m.dst_spec() {
            assert(b1.occupant(sq) == a.occupant(sq));
        }
    }
}

/// The rules read a position only through its squares, reserves, side to move
/// and counter.
proof fn lemma_rules_same(a: Board, b: Board)
    requires
        a.wf(),
        b.wf(),
        forall|sq: int| 0 <= sq < 81 ==> #[trigger] a.occupant(sq) == b.occupant(sq),
        a.hand_of(Side::Sente).pieces@ == b.hand_of(Side::Sente).pieces@,
        a.hand_of(Side::Gote).pieces@ == b.hand_of(Side::Gote).pieces@,
        a.to_move() == b.to_move(),
        a.move_count() == b.move_count(),
    ensures
        Board::no_escape(a) == Board::no_escape(b),
{
    Board::lemma_same_model(a, b);
    lemma_king_attacked_same(a, b, a.to_move());
    assert forall|r: Move| #[trigger] a.is_board_move(r) == b.is_board_move(r) by {
        r.lemma_fields();
        if 0 <= r.src_spec() < 81 {
            assert(a.occupant(r.src_spec()) == b.occupant(r.src_spec()));
        }
        if 0 <= r.dst_spec() < 81 {
            assert(a.occupant(r.dst_spec()) == b.occupant(r.dst_spec()));
        }
    }
    assert forall|r: Move, b2: Board| a.is_board_move(r) implies #[trigger] a.applied(r, b2) == b.applied(r, b2) by {
        assert(a.occupant(r.src_spec()) == b.occupant(r.src_spec()));
        assert(a.occupant(r.dst_spec()) == b.occupant(r.dst_spec()));
        if a.applied(r, b2) {
            assert forall|s: int| 0 <= s < 81 && s != r.src_spec() && s != r.dst_spec() implies #[trigger] b2.occupant(s) == b.occupant(s) by {
                assert(a.occupant(s) == b.occupant(s));
            }
        }
        if b.applied(r, b2) {
            assert forall|s: int| 0 <= s < 81 && s != r.src_spec() && s != r.dst_spec() implies #[trigger] b2.occupant(s) == a.occupant(s) by {
                assert(a.occupant(s) == b.occupant(s));
            }
        }
    }
    if Board::no_escape(a) {
        assert forall|r: Move, b2: Board| b.is_board_move(r) && #[trigger] b.applied(r, b2) implies b2.king_attacked(b.to_move()) by {
            assert(a.is_board_move(r));
            assert(a.applied(r, b2));
        }
    }
    if Board::no_escape(b) {
        assert forall|r: Move, b2: Board| a.is_board_move(r) && #[trigger] a.applied(r, b2) implies b2.king_attacked(a.to_move()) by {
            assert(b.is_board_move(r));
            assert(b.applied(r, b2));
        }
    }
}

impl Board {
    /// Whether the board move `m` of the side to move leaves its king unattacked.
    fn reply_escapes(&self, t: &Tables, m: Move) -> (r: bool)
        requires
            self.wf(),
            t.wf(),
        ensures
            r ==> exists|b2: Board|
                self.is_board_move(m) && #[trigger] self.applied(m, b2) && !b2.king_attacked(self.to_move()),
            !r ==> forall|b2: Board|
                self.is_board_move(m) && #[trigger] self.applied(m, b2) ==> b2.king_attacked(self.to_move()),
    {
        if !self.is_board_move_of(t, m) {
            return false;
        }
        let mut b2 = *self;
        proof {
            lemma_pseudo_legal_applies(*self, m);
        }
        b2.make(&m);
        let attacked = b2.is_king_attacked(t, self.stm());
        proof {
            assert forall|b3: Board|
                self.is_board_move(m) && #[trigger] self.applied(m, b3) implies b3.king_attacked(self.to_move())
                    == b2.king_attacked(self.to_move()) by {
                lemma_applied_squares(*self, m, b2, b3);
                lemma_king_attacked_same(b2, b3, self.to_move());
            }
        }
        !attacked
    }

    /// Whether placing a pawn of the side to move on `sq` mates at once.
    pub fn pawn_drop_mates(&self, t: &Tables, sq: u8) -> (r: bool)
        requires
            self.wf(),
            t.wf(),
            sq < 81,
            self.occupant(sq as int) is None,
            self.hand_of(self.to_move()).count_of(Piece::Pawn) > 0,
        ensures
            r == self.drop_mates(sq as int),
    {
        let m0 = Move::drop(0, sq);
        let mut after = *self;
        proof {
            assert(piece_at_index(0) == Some(Piece::Pawn));
        }
        after.make(&m0);
        let opp = after.stm();
        if !after.is_king_attacked(t, opp) {
            proof {
                assert(self.applied(m0, after));
            }
            return false;
        }
        let mut src: u8 = 0;
        while src < 81
            invariant
                src <= 81,
                after.wf(),
                t.wf(),
                opp == after.to_move(),
                self.applied(m0, after),
                m0.drop_spec() && m0.src_spec() == 0 && m0.dst_spec() == sq,
                forall|r: Move, b2: Board|
                    #![trigger after.applied(r, b2)]
                    after.is_board_move(r) && r.src_spec() < src && after.applied(r, b2) ==> b2.king_attacked(opp),
            decreases 81 - src,
        {
            let mut dst: u8 = 0;
            while dst < 81
                invariant
                    src < 81,
                    dst <= 81,
                    after.wf(),
                    t.wf(),
                    opp == after.to_move(),
                    self.applied(m0, after),
                m0.drop_spec() && m0.src_spec() == 0 && m0.dst_spec() == sq,
                    forall|r: Move, b2: Board|
                        #![trigger after.applied(r, b2)]
                        after.is_board_move(r) && (r.src_spec() < src || (r.src_spec() == src && r.dst_spec() < dst))
                            && after.applied(r, b2) ==> b2.king_attacked(opp),
                decreases 81 - dst,
            {
                let plain = Move::new(src, dst, false);
                let promo = Move::new(src, dst, true);
                if after.reply_escapes(t, plain) {
                    proof {
                        let b2 = choose|b2: Board| after.is_board_move(plain) && #[trigger] after.applied(plain, b2)
                            && !b2.king_attacked(after.to_move());
                        assert(!Board::no_escape(after));
                        assert(self.applied(m0, after));
                    }
                    return false;
                }
                if after.reply_escapes(t, promo) {
                    proof {
                        let b2 = choose|b2: Board| after.is_board_move(promo) && #[trigger] after.applied(promo, b2)
                            && !b2.king_attacked(after.to_move());
                        assert(!Board::no_escape(after));
                        assert(self.applied(m0, after));
                    }
                    return false;
                }
                proof {
                    assert forall|r: Move, b2: Board|
                        after.is_board_move(r) && (r.src_spec() < src || (r.src_spec() == src && r.dst_spec() < dst + 1))
                            && #[trigger] after.applied(r, b2) implies b2.king_attacked(opp) by {
                        if r.src_spec() == src && r.dst_spec() == dst {
                            if r.promo_spec() {
                                lemma_move_eq(r, promo);
                            } else {
                                lemma_move_eq(r, plain);
                            }
                        }
                    }
                }
                dst += 1;
            }
            src += 1;
        }
        proof {
            assert forall|r: Move, b2: Board|
                after.is_board_move(r) && #[trigger] after.applied(r, b2) implies b2.king_attacked(opp) by {}
            assert(Board::no_escape(after));
            assert forall|m: Move, aft: Board|
                m.drop_spec() && m.src_spec() == 0 && m.dst_spec() == sq && #[trigger] self.applied(m, aft) implies Board::no_escape(
                aft,
            ) by {
                assert forall|x: int| 0 <= x < 81 implies #[trigger] aft.occupant(x) == after.occupant(x) by {
                    if x != sq {
                        assert(aft.occupant(x) == self.occupant(x));
                    }
                }
                let me = self.to_move();
                assert(aft.hand_of(me).pieces@ == after.hand_of(me).pieces@);
                assert(aft.hand_of(opponent(me)) == after.hand_of(opponent(me)));
                assert(aft.hand_of(Side::Sente).pieces@ == after.hand_of(Side::Sente).pieces@);
                assert(aft.hand_of(Side::Gote).pieces@ == after.hand_of(Side::Gote).pieces@);
                lemma_rules_same(after, aft);
            }
        }
        true
    }
}

/// The side to move is in check exactly when the set of attackers of its king's
/// square, by the other side, is not empty.
pub proof fn lemma_check_iff_attackers(b: Board, k: int)
    requires
        b.wf(),
        b.king_at(b.to_move(), k),
    ensures
        b.in_check() <==> exists|a: int| #[trigger] b.attacks_square(a, k, opponent(b.to_move())),
{
    let s = b.to_move();
    assert forall|j: int| #[trigger] b.king_at(s, j) implies j == k by {
        if j < k {
            assert(b.occupant(j) != Some((s, Piece::King)));
        } else if j > k {
            assert(b.occupant(k) != Some((s, Piece::King)));
        }
    }
    if exists|a: int| #[trigger] b.attacks_square(a, k, opponent(s)) {
        let a = choose|a: int| #[trigger] b.attacks_square(a, k, opponent(s));
        assert(b.king_at(s, k) && b.attacks_square(a, k, opponent(s)));
    }
}

/// A pseudo-legal move can be applied.
pub proof fn lemma_pseudo_legal_applies(b: Board, m: Move)
    requires
        b.wf(),
        b.is_pseudo_legal(m),
    ensures
        b.can_make(m),
{
}

} // verus!
