use crate::consts::{piece_at_index, InvalidSquare, Piece};
use arrayvec::ArrayVec;
use vstd::prelude::*;

verus! {

#[verifier::external_type_specification]
#[verifier::external_body]
#[verifier::reject_recursive_types(T)]
pub struct ExArrayVec<T, const CAP: usize>(ArrayVec<T, CAP>);

/// A move packed in 16 bits: source square (or placed kind) in bits 0-6,
/// destination in bits 7-13, the promotion flag in bit 14, the placement flag in
/// bit 15.
#[derive(Clone, Copy, Debug, PartialEq, Eq, Structural)]
pub struct Move(u16);

/// Room for every pseudo-legal move of a position.
pub type MoveList = ArrayVec<Move, 600>;

/// The moves held by a move list, in order.
pub uninterp spec fn list_moves(l: MoveList) -> Seq<Move>;

/// Relies on `ArrayVec::new`: an empty list.
#[verifier::external_body]
pub(crate) fn list_new() -> (r: MoveList)
    ensures
        list_moves(r) == Seq::<Move>::empty(),
{
    ArrayVec::new()
}

/// Relies on `ArrayVec::push`: appends at the end; it panics on a full list,
/// which `requires` rules out.
#[verifier::external_body]
pub(crate) fn list_push(l: &mut MoveList, m: Move)
    requires
        list_moves(*old(l)).len() < 600,
    ensures
        list_moves(*final(l)) == list_moves(*old(l)).push(m),
{
    l.push(m)
}

/// Relies on `ArrayVec::len`: the number of moves, never above the capacity.
#[verifier::external_body]
pub(crate) fn list_len(l: &MoveList) -> (r: usize)
    ensures
        r == list_moves(*l).len(),
        r <= 600,
{
    l.len()
}

/// Relies on indexing through `ArrayVec`'s slice view: the move at `i`.
#[verifier::external_body]
pub(crate) fn list_get(l: &MoveList, i: usize) -> (r: Move)
    requires
        i < list_moves(*l).len(),
    ensures
        r == list_moves(*l)[i as int],
{
    l[i]
}

impl Move {
    /// The packed value.
    pub closed spec fn encoded(self) -> u16 {
        self.0
    }

    pub open spec fn src_spec(self) -> int {
        (self.encoded() & 0x7f) as int
    }

    pub open spec fn dst_spec(self) -> int {
        ((self.encoded() >> 7u16) & 0x7f) as int
    }

    pub open spec fn promo_spec(self) -> bool {
        self.encoded() & 0x4000 != 0
    }

    pub open spec fn drop_spec(self) -> bool {
        self.encoded() & 0x8000 != 0
    }

    /// Both square fields hold 7 bits.
    pub proof fn lemma_fields(self)
        ensures
            0 <= self.src_spec() < 128,
            0 <= self.dst_spec() < 128,
    {
        lemma_field_bound(self.0);
    }

    /// A board move from `from` to `to`, promoting or not.
    pub fn new(from: u8, to: u8, promote: bool) -> (r: Self)
        requires
            from < 81,
            to < 81,
        ensures
            r.src_spec() == from,
            r.dst_spec() == to,
            r.promo_spec() == promote,
            !r.drop_spec(),
    {
        let flag: u16 = if promote {
            0x4000
        } else {
            0
        };
        let value: u16 = (from as u16) | ((to as u16) << 7u16) | flag;
        proof {
            lemma_board_move(from as u16, to as u16, flag);
        }
        Move(value)
    }

    /// A placement of the kind at position `piece` of the fixed order on `to`.
    pub fn drop(piece: u8, to: u8) -> (r: Self)
        requires
            piece < 15,
            to < 81,
        ensures
            r.src_spec() == piece,
            r.dst_spec() == to,
            !r.promo_spec(),
            r.drop_spec(),
    {
        let flag: u16 = 0x8000;
        let value: u16 = (piece as u16) | ((to as u16) << 7u16) | flag;
        proof {
            lemma_drop_move(piece as u16, to as u16, flag);
        }
        Move(value)
    }

    /// A board move from square indices taken from outside: refused when either
    /// index is 81 or more.
    pub fn checked(from: u8, to: u8, promote: bool) -> (r: Result<Move, InvalidSquare>)
        ensures
            from >= 81 ==> r == Err::<Move, InvalidSquare>(InvalidSquare { index: from }),
            from < 81 && to >= 81 ==> r == Err::<Move, InvalidSquare>(InvalidSquare { index: to }),
            from < 81 && to < 81 ==> (r is Ok && r->Ok_0.src_spec() == from && r->Ok_0.dst_spec() == to
                && r->Ok_0.promo_spec() == promote && !r->Ok_0.drop_spec()),
    {
        if from >= 81 {
            return Err(InvalidSquare { index: from });
        }
        if to >= 81 {
            return Err(InvalidSquare { index: to });
        }
        Ok(Move::new(from, to, promote))
    }

    /// A placement on a square index taken from outside: refused when the index
    /// is 81 or more, or names no base kind.
    pub fn checked_drop(piece: Piece, to: u8) -> (r: Result<Move, InvalidSquare>)
        ensures
            to >= 81 ==> r == Err::<Move, InvalidSquare>(InvalidSquare { index: to }),
            to < 81 ==> (r is Ok && r->Ok_0.src_spec() == crate::consts::piece_index(piece) && r->Ok_0.dst_spec()
                == to && !r->Ok_0.promo_spec() && r->Ok_0.drop_spec()),
    {
        if to >= 81 {
            return Err(InvalidSquare { index: to });
        }
        Ok(Move::drop(piece.idx() as u8, to))
    }

    /// The source square of a board move; none for a placement.
    pub fn src(self) -> (r: Option<u8>)
        ensures
            r == (if self.drop_spec() {
                None::<u8>
            } else {
                Some(self.src_spec() as u8)
            }),
    {
        if self.is_drop() {
            None
        } else {
            proof {
                lemma_field_bound(self.0);
            }
            Some((self.0 & 0x7f) as u8)
        }
    }

    pub fn dst(self) -> (r: u8)
        ensures
            r == self.dst_spec(),
    {
        proof {
            lemma_field_bound(self.0);
        }
        ((self.0 >> 7u16) & 0x7f) as u8
    }

    pub fn is_promo(self) -> (r: bool)
        ensures
            r == self.promo_spec(),
    {
        self.0 & 0x4000 != 0
    }

    pub fn is_drop(self) -> (r: bool)
        ensures
            r == self.drop_spec(),
    {
        self.0 & 0x8000 != 0
    }

    /// The placed kind of a placement; none for a board move or an index that
    /// names no kind.
    pub fn drop_piece(self) -> (r: Option<Piece>)
        ensures
            self.drop_spec() ==> r == piece_at_index(self.src_spec()),
            !self.drop_spec() ==> r is None,
    {
        if self.is_drop() {
            proof {
                lemma_field_bound(self.0);
            }
            Piece::from_index((self.0 & 0x7f) as u8)
        } else {
            None
        }
    }
}

proof fn lemma_board_move(from: u16, to: u16, flag: u16)
    by (bit_vector)
    requires
        from < 81,
        to < 81,
        flag == 0 || flag == 0x4000,
    ensures
        (from | (to << 7u16) | flag) & 0x7f == from,
        ((from | (to << 7u16) | flag) >> 7u16) & 0x7f == to,
        ((from | (to << 7u16) | flag) & 0x4000 != 0) == (flag == 0x4000),
        (from | (to << 7u16) | flag) & 0x8000 == 0,
{
}

proof fn lemma_field_bound(v: u16)
    by (bit_vector)
    ensures
        v & 0x7f < 128,
        (v >> 7u16) & 0x7f < 128,
{
}

proof fn lemma_drop_move(piece: u16, to: u16, flag: u16)
    by (bit_vector)
    requires
        piece < 15,
        to < 81,
        flag == 0x8000,
    ensures
        (piece | (to << 7u16) | flag) & 0x7f == piece,
        ((piece | (to << 7u16) | flag) >> 7u16) & 0x7f == to,
        (piece | (to << 7u16) | flag) & 0x4000 == 0,
        (piece | (to << 7u16) | flag) & 0x8000 != 0,
{
}

/// There are finitely many moves.
pub proof fn lemma_moves_finite()
    ensures
        Set::<Move>::full().finite(),
{
    let codes = vstd::set_lib::set_int_range(0, 0x1_0000);
    vstd::set_lib::lemma_int_range(0, 0x1_0000);
    let all = codes.map(|c: int| Move(c as u16));
    codes.lemma_map_finite(|c: int| Move(c as u16));
    assert forall|m: Move| #[trigger] Set::<Move>::full().contains(m) implies all.contains(m) by {
        assert(codes.contains(m.0 as int));
        assert(Move((m.0 as int) as u16) == m);
    }
    assert(Set::<Move>::full() =~= all);
}

/// A move is determined by its four fields.
pub proof fn lemma_move_eq(a: Move, b: Move)
    requires
        a.src_spec() == b.src_spec(),
        a.dst_spec() == b.dst_spec(),
        a.promo_spec() == b.promo_spec(),
        a.drop_spec() == b.drop_spec(),
    ensures
        a == b,
{
    let x = a.0;
    let y = b.0;
    assert(x == y) by (bit_vector)
        requires
            x & 0x7f == y & 0x7f,
            (x >> 7u16) & 0x7f == (y >> 7u16) & 0x7f,
            (x & 0x4000 != 0) == (y & 0x4000 != 0),
            (x & 0x8000 != 0) == (y & 0x8000 != 0),
    ;
}

} // verus!
