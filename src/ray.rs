use crate::consts::{file_of, rank_of};
use crate::magics::{file_step, is_direction, rank_step, ray, ray_attacks, sq_bit};
use vstd::prelude::*;

verus! {

/// Sign of an integer.
pub open spec fn sign(x: int) -> int {
    if x > 0 {
        1
    } else if x < 0 {
        -1
    } else {
        0
    }
}

/// The step, as a change of square index, that leads from `from` to `to` along a
/// rank, a file or a diagonal; 0 when the squares are equal or share no line.
pub open spec fn line_delta(from: int, to: int) -> int {
    let dr = rank_of(to) - rank_of(from);
    let df = file_of(to) - file_of(from);
    if from == to {
        0
    } else if dr == 0 || df == 0 || dr == df || dr == -df {
        9 * sign(dr) + sign(df)
    } else {
        0
    }
}

/// The squares strictly between `from` and `to` when they share a line.
pub open spec fn between_spec(from: int, to: int) -> u128 {
    let d = line_delta(from, to);
    if d == 0 {
        0
    } else {
        ray(rank_of(from), file_of(from), rank_step(d), file_step(d), sq_bit(to)) & !sq_bit(to)
    }
}

/// The squares strictly between `from` and `to` on their shared rank, file or
/// diagonal; empty when they share none, are equal, or either is off the board.
pub fn between(from: u8, to: u8) -> (r: u128)
    ensures
        from < 81 && to < 81 ==> r == between_spec(from as int, to as int),
        !(from < 81 && to < 81) ==> r == 0,
{
    if from >= 81 || to >= 81 || from == to {
        return 0;
    }
    let offset = direction(from, to);
    if offset == 0 {
        return 0;
    }
    let target = crate::bits::bb(to);
    ray_attacks(from, offset, target) & !target
}

/// The step that leads from `from` to `to` along a shared line, 0 if none.
fn direction(from: u8, to: u8) -> (r: i8)
    requires
        from < 81,
        to < 81,
    ensures
        r == line_delta(from as int, to as int),
        r != 0 ==> is_direction(r as int),
        r != 0 ==> rank_step(r as int) == sign(rank_of(to as int) - rank_of(from as int)),
{
    let dr: i8 = (to / 9) as i8 - (from / 9) as i8;
    let df: i8 = (to % 9) as i8 - (from % 9) as i8;
    if from == to {
        return 0;
    }
    if dr == 0 || df == 0 || dr == df || dr == -df {
        let sr: i8 = if dr > 0 {
            1
        } else if dr < 0 {
            -1
        } else {
            0
        };
        let sf: i8 = if df > 0 {
            1
        } else if df < 0 {
            -1
        } else {
            0
        };
        9 * sr + sf
    } else {
        0
    }
}

} // verus!
