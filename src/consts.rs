use vstd::prelude::*;

verus! {

/// The standard starting record.
pub const STARTPOS: &'static str = "lnsgkgsnl/1r5b1/ppppppppp/9/9/9/PPPPPPPPP/1B5R1/LNSGKGSNL b - 1";

/// The fourteen kinds of piece: seven base kinds, six promoted forms, the king.
#[derive(Copy, Clone, Debug, PartialEq, Eq, Structural, PartialOrd, Ord, Hash)]
pub enum Piece {
    Pawn,
    Lance,
    Knight,
    Silver,
    Gold,
    Bishop,
    Rook,
    PromotedPawn,
    PromotedLance,
    PromotedKnight,
    PromotedSilver,
    PromotedBishop,
    PromotedRook,
    King,
}

/// Position of each kind in the fixed order above.
pub open spec fn piece_index(p: Piece) -> nat {
    match p {
        Piece::Pawn => 0,
        Piece::Lance => 1,
        Piece::Knight => 2,
        Piece::Silver => 3,
        Piece::Gold => 4,
        Piece::Bishop => 5,
        Piece::Rook => 6,
        Piece::PromotedPawn => 7,
        Piece::PromotedLance => 8,
        Piece::PromotedKnight => 9,
        Piece::PromotedSilver => 10,
        Piece::PromotedBishop => 11,
        Piece::PromotedRook => 12,
        Piece::King => 13,
    }
}

/// The kind at a position of the fixed order.
pub open spec fn piece_at_index(i: int) -> Option<Piece> {
    if i == 0 {
        Some(Piece::Pawn)
    } else if i == 1 {
        Some(Piece::Lance)
    } else if i == 2 {
        Some(Piece::Knight)
    } else if i == 3 {
        Some(Piece::Silver)
    } else if i == 4 {
        Some(Piece::Gold)
    } else if i == 5 {
        Some(Piece::Bishop)
    } else if i == 6 {
        Some(Piece::Rook)
    } else if i == 7 {
        Some(Piece::PromotedPawn)
    } else if i == 8 {
        Some(Piece::PromotedLance)
    } else if i == 9 {
        Some(Piece::PromotedKnight)
    } else if i == 10 {
        Some(Piece::PromotedSilver)
    } else if i == 11 {
        Some(Piece::PromotedBishop)
    } else if i == 12 {
        Some(Piece::PromotedRook)
    } else if i == 13 {
        Some(Piece::King)
    } else {
        None
    }
}

/// The promoted form; none for gold, the king and pieces already promoted.
pub open spec fn promoted(p: Piece) -> Option<Piece> {
    match p {
        Piece::Pawn => Some(Piece::PromotedPawn),
        Piece::Lance => Some(Piece::PromotedLance),
        Piece::Knight => Some(Piece::PromotedKnight),
        Piece::Silver => Some(Piece::PromotedSilver),
        Piece::Bishop => Some(Piece::PromotedBishop),
        Piece::Rook => Some(Piece::PromotedRook),
        _ => None,
    }
}

/// The base kind that a piece was promoted from (itself when unpromoted).
pub open spec fn unpromoted(p: Piece) -> Piece {
    match p {
        Piece::PromotedPawn => Piece::Pawn,
        Piece::PromotedLance => Piece::Lance,
        Piece::PromotedKnight => Piece::Knight,
        Piece::PromotedSilver => Piece::Silver,
        Piece::PromotedBishop => Piece::Bishop,
        Piece::PromotedRook => Piece::Rook,
        _ => p,
    }
}

/// A kind that may be held in reserve: the seven base kinds.
pub open spec fn is_reserve_kind(p: Piece) -> bool {
    piece_index(p) < 7
}

impl Piece {
    pub const COUNT: usize = 14;

    pub fn idx(&self) -> (r: usize)
        ensures
            r == piece_index(*self),
            r < 14,
    {
        match self {
            Piece::Pawn => 0,
            Piece::Lance => 1,
            Piece::Knight => 2,
            Piece::Silver => 3,
            Piece::Gold => 4,
            Piece::Bishop => 5,
            Piece::Rook => 6,
            Piece::PromotedPawn => 7,
            Piece::PromotedLance => 8,
            Piece::PromotedKnight => 9,
            Piece::PromotedSilver => 10,
            Piece::PromotedBishop => 11,
            Piece::PromotedRook => 12,
            Piece::King => 13,
        }
    }

    /// The kind at position `value` of the fixed order, if there is one.
    pub fn from_index(value: u8) -> (r: Option<Piece>)
        ensures
            r == piece_at_index(value as int),
            r is Some ==> piece_index(r->0) == value,
    {
        match value {
            0 => Some(Piece::Pawn),
            1 => Some(Piece::Lance),
            2 => Some(Piece::Knight),
            3 => Some(Piece::Silver),
            4 => Some(Piece::Gold),
            5 => Some(Piece::Bishop),
            6 => Some(Piece::Rook),
            7 => Some(Piece::PromotedPawn),
            8 => Some(Piece::PromotedLance),
            9 => Some(Piece::PromotedKnight),
            10 => Some(Piece::PromotedSilver),
            11 => Some(Piece::PromotedBishop),
            12 => Some(Piece::PromotedRook),
            13 => Some(Piece::King),
            _ => None,
        }
    }

    pub fn to_promo_piece(&self) -> (r: Option<Piece>)
        ensures
            r == promoted(*self),
    {
        match self {
            Piece::Pawn => Some(Piece::PromotedPawn),
            Piece::Lance => Some(Piece::PromotedLance),
            Piece::Knight => Some(Piece::PromotedKnight),
            Piece::Silver => Some(Piece::PromotedSilver),
            Piece::Bishop => Some(Piece::PromotedBishop),
            Piece::Rook => Some(Piece::PromotedRook),
            _ => None,
        }
    }

    pub fn can_promote(&self) -> (r: bool)
        ensures
            r == promoted(*self) is Some,
    {
        self.to_promo_piece().is_some()
    }

    /// The base kind (itself when unpromoted).
    pub fn to_base_piece(&self) -> (r: Piece)
        ensures
            r == unpromoted(*self),
    {
        match self {
            Piece::PromotedPawn => Piece::Pawn,
            Piece::PromotedLance => Piece::Lance,
            Piece::PromotedKnight => Piece::Knight,
            Piece::PromotedSilver => Piece::Silver,
            Piece::PromotedBishop => Piece::Bishop,
            Piece::PromotedRook => Piece::Rook,
            _ => *self,
        }
    }
}

/// The two players; the first side (sente) moves towards rank 8.
#[derive(Copy, Clone, Debug, PartialEq, Eq, Structural, Hash)]
pub enum Side {
    Sente,
    Gote,
}

pub open spec fn side_index(s: Side) -> nat {
    match s {
        Side::Sente => 0,
        Side::Gote => 1,
    }
}

pub open spec fn opponent(s: Side) -> Side {
    match s {
        Side::Sente => Side::Gote,
        Side::Gote => Side::Sente,
    }
}

/// Rank step of a forward move: +1 for the first side, -1 for the second.
pub open spec fn forward(s: Side) -> int {
    match s {
        Side::Sente => 1,
        Side::Gote => -1,
    }
}

impl Side {
    pub fn flip(&self) -> (r: Side)
        ensures
            r == opponent(*self),
    {
        match self {
            Side::Sente => Side::Gote,
            Side::Gote => Side::Sente,
        }
    }

    pub fn is_sente(&self) -> (r: bool)
        ensures
            r == (*self == Side::Sente),
    {
        *self == Side::Sente
    }

    pub fn is_gote(&self) -> (r: bool)
        ensures
            r == (*self == Side::Gote),
    {
        *self == Side::Gote
    }

    pub fn idx(&self) -> (r: usize)
        ensures
            r == side_index(*self),
            r < 2,
    {
        match self {
            Side::Sente => 0,
            Side::Gote => 1,
        }
    }
}

pub open spec fn rank_of(sq: int) -> int {
    sq / 9
}

pub open spec fn file_of(sq: int) -> int {
    sq % 9
}

pub open spec fn square_at(rank: int, file: int) -> int {
    rank * 9 + file
}

/// The index names no square of the board.
#[derive(Copy, Clone, Debug, PartialEq, Eq, Structural)]
pub struct InvalidSquare {
    pub index: u8,
}

/// Squares are plain indices `rank * 9 + file`, below 81.
pub struct Square {}

impl Square {
    pub const COUNT: usize = 81;

    pub const DELTA_N: i8 = 9;
    pub const DELTA_E: i8 = 1;
    pub const DELTA_S: i8 = -9;
    pub const DELTA_W: i8 = -1;
    pub const DELTA_NE: i8 = 10;
    pub const DELTA_SE: i8 = -8;
    pub const DELTA_SW: i8 = -10;
    pub const DELTA_NW: i8 = 8;

    pub fn of(rank: u8, file: u8) -> (r: u8)
        requires
            rank < 9,
            file < 9,
        ensures
            r == square_at(rank as int, file as int),
            r < 81,
    {
        rank * 9 + file
    }

    pub fn file(sq: u8) -> (r: u8)
        ensures
            r == file_of(sq as int),
    {
        sq % 9
    }

    pub fn rank(sq: u8) -> (r: u8)
        ensures
            r == rank_of(sq as int),
    {
        sq / 9
    }

    pub fn is_valid(sq: u8) -> (r: bool)
        ensures
            r == (sq < 81),
    {
        sq < 81
    }

    /// A square index taken from outside: refused at 81 and above.
    pub fn checked(index: u8) -> (r: Result<u8, InvalidSquare>)
        ensures
            index < 81 ==> r == Ok::<u8, InvalidSquare>(index),
            index >= 81 ==> r == Err::<u8, InvalidSquare>(InvalidSquare { index }),
    {
        if index < 81 {
            Ok(index)
        } else {
            Err(InvalidSquare { index })
        }
    }

    /// Every square, in increasing order.
    pub fn iter() -> (r: Vec<u8>)
        ensures
            r@.len() == 81,
            forall|i: int| 0 <= i < 81 ==> r@[i] == i,
    {
        let mut v: Vec<u8> = Vec::new();
        let mut sq: u8 = 0;
        while sq < 81
            invariant
                sq <= 81,
                v@.len() == sq,
                forall|i: int| 0 <= i < sq ==> v@[i] == i,
            decreases 81 - sq,
        {
            v.push(sq);
            sq += 1;
        }
        v
    }
}

} // verus!
