use crate::attacks::{gold_pattern, king_pattern, knight_pattern, leap, leaps, pawn_pattern, piece_attacks, silver_pattern};
use crate::bits::{lemma_or, lemma_single, lemma_zero, on};
use crate::consts::{file_of, opponent, rank_of, square_at, Piece, Side};
use crate::magics::{
    bishop_directions, file_step, is_direction, lance_directions, on_board, rank_step, ray, rook_directions,
    slide_all, sq_bit, unit,
};
use vstd::prelude::*;

verus! {

/// Board coordinates and square indices convert both ways.
pub proof fn lemma_coords(r: int, f: int)
    requires
        on_board(r, f),
    ensures
        0 <= square_at(r, f) < 81,
        rank_of(square_at(r, f)) == r,
        file_of(square_at(r, f)) == f,
{
}

pub proof fn lemma_square(sq: int)
    requires
        0 <= sq < 81,
    ensures
        on_board(rank_of(sq), file_of(sq)),
        square_at(rank_of(sq), file_of(sq)) == sq,
{
}

/// A step and the opposite step undo each other.
pub proof fn lemma_leap_sym(sq: int, a: int, dr: int, df: int)
    requires
        0 <= sq < 81,
        0 <= a < 81,
    ensures
        on(leap(sq, dr, df), a) == on(leap(a, -dr, -df), sq),
{
    lemma_zero();
    lemma_square(sq);
    lemma_square(a);
    let r1 = rank_of(sq) + dr;
    let f1 = file_of(sq) + df;
    if on_board(r1, f1) {
        lemma_coords(r1, f1);
        lemma_single(square_at(r1, f1) as u128);
    }
    let r2 = rank_of(a) - dr;
    let f2 = file_of(a) - df;
    if on_board(r2, f2) {
        lemma_coords(r2, f2);
        lemma_single(square_at(r2, f2) as u128);
    }
}

/// A square is reached by a pattern exactly when one of its steps reaches it.
pub proof fn lemma_leaps_on(sq: int, pat: Seq<(i8, i8)>, a: int)
    requires
        0 <= a < 81,
    ensures
        on(leaps(sq, pat), a) == exists|i: int| 0 <= i < pat.len() && #[trigger] on(leap(sq, pat[i].0 as int, pat[i].1 as int), a),
    decreases pat.len(),
{
    lemma_zero();
    if pat.len() > 0 {
        let pre = pat.drop_last();
        lemma_leaps_on(sq, pre, a);
        let l = leap(sq, pat.last().0 as int, pat.last().1 as int);
        lemma_or(leaps(sq, pre), l);
        if on(leaps(sq, pat), a) {
            if on(l, a) {
                assert(on(leap(sq, pat[pat.len() - 1].0 as int, pat[pat.len() - 1].1 as int), a));
            } else {
                let i = choose|i: int| 0 <= i < pre.len() && #[trigger] on(leap(sq, pre[i].0 as int, pre[i].1 as int), a);
                assert(pat[i] == pre[i]);
            }
        }
        if exists|i: int| 0 <= i < pat.len() && #[trigger] on(leap(sq, pat[i].0 as int, pat[i].1 as int), a) {
            let i = choose|i: int| 0 <= i < pat.len() && #[trigger] on(leap(sq, pat[i].0 as int, pat[i].1 as int), a);
            if i < pre.len() {
                assert(pat[i] == pre[i]);
                assert(on(leap(sq, pre[i].0 as int, pre[i].1 as int), a));
            }
        }
    }
}

/// Patterns whose steps are each other's opposites, in some order, see each
/// other: a square reached from `sq` by one is the square from which the other
/// reaches `sq`.
pub proof fn lemma_leaps_sym(sq: int, a: int, p: Seq<(i8, i8)>, q: Seq<(i8, i8)>, reversed: bool)
    requires
        0 <= sq < 81,
        0 <= a < 81,
        p.len() == q.len(),
        forall|i: int|
            0 <= i < p.len() ==> {
                let j = if reversed { p.len() - 1 - i } else { i };
                &&& (#[trigger] p[i]).0 as int == -(q[j].0 as int)
                &&& p[i].1 as int == -(q[j].1 as int)
            },
    ensures
        on(leaps(sq, q), a) == on(leaps(a, p), sq),
{
    lemma_leaps_on(sq, q, a);
    lemma_leaps_on(a, p, sq);
    if on(leaps(a, p), sq) {
        let i = choose|i: int| 0 <= i < p.len() && #[trigger] on(leap(a, p[i].0 as int, p[i].1 as int), sq);
        let j = if reversed { p.len() - 1 - i } else { i };
        lemma_leap_sym(a, sq, p[i].0 as int, p[i].1 as int);
        assert(on(leap(sq, q[j].0 as int, q[j].1 as int), a));
    }
    if on(leaps(sq, q), a) {
        let j = choose|j: int| 0 <= j < q.len() && #[trigger] on(leap(sq, q[j].0 as int, q[j].1 as int), a);
        let i = if reversed { p.len() - 1 - j } else { j };
        assert(p[i].0 as int == -(q[j].0 as int));
        lemma_leap_sym(sq, a, q[j].0 as int, q[j].1 as int);
        assert(on(leap(a, p[i].0 as int, p[i].1 as int), sq));
    }
}

/// `k` steps of `d`, for a unit step `d`.
pub open spec fn times(k: int, d: int) -> int {
    if d > 0 {
        k
    } else if d < 0 {
        -k
    } else {
        0
    }
}

/// The squares 1 to `k - 1` steps from `(r, f)` along `(dr, df)` are empty.
pub open spec fn clear_path(r: int, f: int, dr: int, df: int, occ: u128, k: int) -> bool {
    forall|j: int| 1 <= j < k ==> !on(occ, #[trigger] square_at(r + times(j, dr), f + times(j, df)))
}

/// `x` lies `k` steps from `(r, f)` along `(dr, df)`, with every square before
/// it empty.
pub open spec fn reached(r: int, f: int, dr: int, df: int, occ: u128, x: int, k: int) -> bool {
    &&& 1 <= k
    &&& on_board(r + times(k, dr), f + times(k, df))
    &&& x == square_at(r + times(k, dr), f + times(k, df))
    &&& clear_path(r, f, dr, df, occ, k)
}

/// A ray holds exactly the squares reached along it.
pub proof fn lemma_ray_on(r: int, f: int, dr: int, df: int, occ: u128, x: int)
    requires
        unit(dr, df),
        on_board(r, f),
        0 <= x < 81,
    ensures
        on(ray(r, f, dr, df, occ), x) == exists|k: int| #[trigger] reached(r, f, dr, df, occ, x, k),
    decreases crate::magics::room(r, dr) + crate::magics::room(f, df),
{
    lemma_zero();
    if !on_board(r + dr, f + df) {
        assert forall|k: int| !#[trigger] reached(r, f, dr, df, occ, x, k) by {
            if reached(r, f, dr, df, occ, x, k) {
                assert(on_board(r + times(k, dr), f + times(k, df)));
            }
        }
    } else {
        let t = square_at(r + dr, f + df);
        lemma_coords(r + dr, f + df);
        lemma_single(t as u128);
        let rest = if on(occ, t) {
            0u128
        } else {
            ray(r + dr, f + df, dr, df, occ)
        };
        crate::magics::lemma_or_zero(sq_bit(t));
        assert(ray(r, f, dr, df, occ) == sq_bit(t) | rest);
        lemma_or(sq_bit(t), rest);
        lemma_ray_on(r + dr, f + df, dr, df, occ, x);
        if on(ray(r, f, dr, df, occ), x) {
            if x == t {
                assert(reached(r, f, dr, df, occ, x, 1));
            } else {
                assert(!on(occ, t));
                let k = choose|k: int| #[trigger] reached(r + dr, f + df, dr, df, occ, x, k);
                assert forall|j: int| 1 <= j < k + 1 implies !on(occ, #[trigger] square_at(r + times(j, dr), f + times(j, df))) by {
                    if j > 1 {
                        assert(square_at(r + times(j, dr), f + times(j, df)) == square_at(r + dr + times(j - 1, dr), f + df + times(j - 1, df)));
                    }
                }
                assert(reached(r, f, dr, df, occ, x, k + 1));
            }
        }
        if exists|k: int| #[trigger] reached(r, f, dr, df, occ, x, k) {
            let k = choose|k: int| #[trigger] reached(r, f, dr, df, occ, x, k);
            if k == 1 {
                assert(x == t);
            } else {
                assert(!on(occ, square_at(r + times(1, dr), f + times(1, df))));
                assert forall|j: int| 1 <= j < k - 1 implies !on(occ, #[trigger] square_at(r + dr + times(j, dr), f + df + times(j, df))) by {
                    assert(square_at(r + dr + times(j, dr), f + df + times(j, df)) == square_at(r + times(j + 1, dr), f + times(j + 1, df)));
                }
                assert(reached(r + dr, f + df, dr, df, occ, x, k - 1));
            }
        }
    }
}

/// Walking back along a ray retraces it.
proof fn lemma_reached_back(sq: int, a: int, dr: int, df: int, occ: u128, k: int)
    requires
        unit(dr, df),
        0 <= sq < 81,
        0 <= a < 81,
        reached(rank_of(sq), file_of(sq), dr, df, occ, a, k),
    ensures
        reached(rank_of(a), file_of(a), -dr, -df, occ, sq, k),
{
    let r = rank_of(sq);
    let f = file_of(sq);
    lemma_square(sq);
    lemma_coords(r + times(k, dr), f + times(k, df));
    assert(rank_of(a) + times(k, -dr) == r);
    assert(file_of(a) + times(k, -df) == f);
    assert forall|j: int| 1 <= j < k implies !on(occ, #[trigger] square_at(rank_of(a) + times(j, -dr), file_of(a) + times(j, -df))) by {
        assert(square_at(rank_of(a) + times(j, -dr), file_of(a) + times(j, -df)) == square_at(r + times(k - j, dr), f + times(k - j, df)));
    }
}

/// A slider on `sq` reaches `a` exactly when the same slider on `a`, moving the
/// opposite way, reaches `sq`.
pub proof fn lemma_ray_sym(sq: int, a: int, dr: int, df: int, occ: u128)
    requires
        unit(dr, df),
        0 <= sq < 81,
        0 <= a < 81,
    ensures
        on(ray(rank_of(sq), file_of(sq), dr, df, occ), a) == on(ray(rank_of(a), file_of(a), -dr, -df, occ), sq),
{
    lemma_square(sq);
    lemma_square(a);
    lemma_ray_on(rank_of(sq), file_of(sq), dr, df, occ, a);
    lemma_ray_on(rank_of(a), file_of(a), -dr, -df, occ, sq);
    if on(ray(rank_of(sq), file_of(sq), dr, df, occ), a) {
        let k = choose|k: int| #[trigger] reached(rank_of(sq), file_of(sq), dr, df, occ, a, k);
        lemma_reached_back(sq, a, dr, df, occ, k);
    }
    if on(ray(rank_of(a), file_of(a), -dr, -df, occ), sq) {
        let k = choose|k: int| #[trigger] reached(rank_of(a), file_of(a), -dr, -df, occ, sq, k);
        lemma_reached_back(a, sq, -dr, -df, occ, k);
        assert(-(-dr) == dr && -(-df) == df);
    }
}

/// A square is attacked along a set of directions exactly when one of them
/// reaches it.
pub proof fn lemma_slide_on(ds: Seq<i8>, sq: int, occ: u128, a: int)
    requires
        0 <= a < 81,
    ensures
        on(slide_all(ds, sq, occ), a) == exists|i: int|
            0 <= i < ds.len() && #[trigger] on(
                ray(rank_of(sq), file_of(sq), rank_step(ds[i] as int), file_step(ds[i] as int), occ),
                a,
            ),
    decreases ds.len(),
{
    lemma_zero();
    if ds.len() > 0 {
        let pre = ds.drop_last();
        lemma_slide_on(pre, sq, occ, a);
        let d = ds.last() as int;
        let l = ray(rank_of(sq), file_of(sq), rank_step(d), file_step(d), occ);
        lemma_or(slide_all(pre, sq, occ), l);
        if on(slide_all(ds, sq, occ), a) {
            if on(l, a) {
                assert(on(ray(rank_of(sq), file_of(sq), rank_step(ds[ds.len() - 1] as int), file_step(ds[ds.len() - 1] as int), occ), a));
            } else {
                let i = choose|i: int| 0 <= i < pre.len() && #[trigger] on(
                    ray(rank_of(sq), file_of(sq), rank_step(pre[i] as int), file_step(pre[i] as int), occ),
                    a,
                );
                assert(ds[i] == pre[i]);
            }
        }
        if exists|i: int|
            0 <= i < ds.len() && #[trigger] on(
                ray(rank_of(sq), file_of(sq), rank_step(ds[i] as int), file_step(ds[i] as int), occ),
                a,
            ) {
            let i = choose|i: int|
                0 <= i < ds.len() && #[trigger] on(
                    ray(rank_of(sq), file_of(sq), rank_step(ds[i] as int), file_step(ds[i] as int), occ),
                    a,
                );
            if i < pre.len() {
                assert(ds[i] == pre[i]);
                assert(on(ray(rank_of(sq), file_of(sq), rank_step(pre[i] as int), file_step(pre[i] as int), occ), a));
            }
        }
    }
}

/// Some direction of `ds` is the opposite of `d`.
pub open spec fn has_opposite(ds: Seq<i8>, d: i8) -> bool {
    exists|j: int| 0 <= j < ds.len() && #[trigger] ds[j] as int == -(d as int)
}

/// Direction sets where each direction's opposite is in the other set see each
/// other the same way.
pub proof fn lemma_slide_sym(sq: int, a: int, p: Seq<i8>, q: Seq<i8>, occ: u128)
    requires
        0 <= sq < 81,
        0 <= a < 81,
        forall|i: int| 0 <= i < p.len() ==> is_direction(#[trigger] p[i] as int),
        forall|i: int| 0 <= i < q.len() ==> is_direction(#[trigger] q[i] as int),
        forall|i: int| 0 <= i < p.len() ==> has_opposite(q, #[trigger] p[i]),
        forall|j: int| 0 <= j < q.len() ==> has_opposite(p, #[trigger] q[j]),
    ensures
        on(slide_all(q, sq, occ), a) == on(slide_all(p, a, occ), sq),
{
    lemma_slide_on(q, sq, occ, a);
    lemma_slide_on(p, a, occ, sq);
    if on(slide_all(p, a, occ), sq) {
        let i = choose|i: int|
            0 <= i < p.len() && #[trigger] on(
                ray(rank_of(a), file_of(a), rank_step(p[i] as int), file_step(p[i] as int), occ),
                sq,
            );
        assert(has_opposite(q, p[i]));
        let j = choose|j: int| 0 <= j < q.len() && #[trigger] q[j] as int == -(p[i] as int);
        lemma_ray_sym(a, sq, rank_step(p[i] as int), file_step(p[i] as int), occ);
        assert(rank_step(q[j] as int) == -rank_step(p[i] as int));
        assert(file_step(q[j] as int) == -file_step(p[i] as int));
        assert(on(ray(rank_of(sq), file_of(sq), rank_step(q[j] as int), file_step(q[j] as int), occ), a));
    }
    if on(slide_all(q, sq, occ), a) {
        let j = choose|j: int|
            0 <= j < q.len() && #[trigger] on(
                ray(rank_of(sq), file_of(sq), rank_step(q[j] as int), file_step(q[j] as int), occ),
                a,
            );
        assert(has_opposite(p, q[j]));
        let i = choose|i: int| 0 <= i < p.len() && #[trigger] p[i] as int == -(q[j] as int);
        lemma_ray_sym(sq, a, rank_step(q[j] as int), file_step(q[j] as int), occ);
        assert(rank_step(p[i] as int) == -rank_step(q[j] as int));
        assert(file_step(p[i] as int) == -file_step(q[j] as int));
        assert(on(ray(rank_of(a), file_of(a), rank_step(p[i] as int), file_step(p[i] as int), occ), sq));
    }
}

/// A piece of kind `p` of `side` on `a` attacks `sq` exactly when a piece of the
/// same kind of the other side on `sq` would attack `a`.
pub proof fn lemma_piece_sym(p: Piece, side: Side, sq: int, a: int, occ: u128)
    requires
        0 <= sq < 81,
        0 <= a < 81,
    ensures
        on(piece_attacks(p, opponent(side), sq, occ), a) == on(piece_attacks(p, side, a, occ), sq),
{
    let o = opponent(side);
    lemma_leaps_sym(sq, a, king_pattern(), king_pattern(), true);
    lemma_leaps_sym(sq, a, pawn_pattern(side), pawn_pattern(o), false);
    lemma_leaps_sym(sq, a, knight_pattern(side), knight_pattern(o), false);
    lemma_leaps_sym(sq, a, silver_pattern(side), silver_pattern(o), false);
    lemma_leaps_sym(sq, a, gold_pattern(side), gold_pattern(o), false);
    let bd = bishop_directions();
    let rd = rook_directions();
    assert(has_opposite(bd, bd[0]) && has_opposite(bd, bd[2])) by {
        assert(bd[2] as int == -(bd[0] as int));
        assert(bd[0] as int == -(bd[2] as int));
    }
    assert(has_opposite(bd, bd[1]) && has_opposite(bd, bd[3])) by {
        assert(bd[3] as int == -(bd[1] as int));
        assert(bd[1] as int == -(bd[3] as int));
    }
    assert(has_opposite(rd, rd[0]) && has_opposite(rd, rd[2])) by {
        assert(rd[2] as int == -(rd[0] as int));
        assert(rd[0] as int == -(rd[2] as int));
    }
    assert(has_opposite(rd, rd[1]) && has_opposite(rd, rd[3])) by {
        assert(rd[3] as int == -(rd[1] as int));
        assert(rd[1] as int == -(rd[3] as int));
    }
    lemma_slide_sym(sq, a, bd, bd, occ);
    lemma_slide_sym(sq, a, rd, rd, occ);
    let ls = lance_directions(side);
    let lo = lance_directions(o);
    assert(has_opposite(lo, ls[0])) by {
        assert(lo[0] as int == -(ls[0] as int));
    }
    assert(has_opposite(ls, lo[0])) by {
        assert(ls[0] as int == -(lo[0] as int));
    }
    lemma_slide_sym(sq, a, ls, lo, occ);
    let kl = leaps(sq, king_pattern());
    let ka = leaps(a, king_pattern());
    lemma_or(kl, slide_all(bd, sq, occ));
    lemma_or(ka, slide_all(bd, a, occ));
    lemma_or(kl, slide_all(rd, sq, occ));
    lemma_or(ka, slide_all(rd, a, occ));
}

} // verus!
