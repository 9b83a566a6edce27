use crate::bits::{bit, lemma_bit_test, lemma_and, lemma_or, lemma_pop, lemma_single, lsb, on, pop, within_board};
use crate::consts::{file_of, forward, rank_of, square_at, Side, Square};
use vstd::prelude::*;

verus! {

/// A step between neighbouring squares, as a change of square index.
pub open spec fn is_direction(d: int) -> bool {
    d == 9 || d == 1 || d == -9 || d == -1 || d == 10 || d == -8 || d == -10 || d == 8
}

pub open spec fn all_directions(ds: Seq<i8>) -> bool {
    forall|i: int| 0 <= i < ds.len() ==> is_direction(#[trigger] ds[i] as int)
}

/// Rank change of a direction.
pub open spec fn rank_step(d: int) -> int {
    if d >= 8 {
        1
    } else if d <= -8 {
        -1
    } else {
        0
    }
}

/// File change of a direction.
pub open spec fn file_step(d: int) -> int {
    d - 9 * rank_step(d)
}

pub open spec fn on_board(r: int, f: int) -> bool {
    0 <= r < 9 && 0 <= f < 9
}

/// Distance left before leaving the board along one coordinate.
pub open spec fn room(x: int, dx: int) -> int {
    if dx > 0 {
        9 - x
    } else if dx < 0 {
        x + 1
    } else {
        0
    }
}

pub open spec fn unit(dr: int, df: int) -> bool {
    -1 <= dr <= 1 && -1 <= df <= 1 && (dr != 0 || df != 0)
}

/// The mask of square `s`.
pub open spec fn sq_bit(s: int) -> u128 {
    1u128 << (s as u128)
}

/// Squares reached from `(r, f)` stepping by `(dr, df)`: each square up to and
/// including the first occupied one, or up to the edge.
pub open spec fn ray(r: int, f: int, dr: int, df: int, occ: u128) -> u128
    decreases room(r, dr) + room(f, df),
{
    if !unit(dr, df) || !on_board(r, f) || !on_board(r + dr, f + df) {
        0
    } else {
        let t = square_at(r + dr, f + df);
        if on(occ, t) {
            sq_bit(t)
        } else {
            sq_bit(t) | ray(r + dr, f + df, dr, df, occ)
        }
    }
}

/// Squares along the same ray whose occupancy can change the result: every
/// square of the empty-board ray but the last one.
pub open spec fn ray_mask(r: int, f: int, dr: int, df: int) -> u128
    decreases room(r, dr) + room(f, df),
{
    if !unit(dr, df) || !on_board(r, f) || !on_board(r + dr, f + df) || !on_board(
        r + 2 * dr,
        f + 2 * df,
    ) {
        0
    } else {
        sq_bit(square_at(r + dr, f + df)) | ray_mask(r + dr, f + df, dr, df)
    }
}

/// Ray-cast attacks from `sq` along every direction of `ds`.
pub open spec fn slide_all(ds: Seq<i8>, sq: int, occ: u128) -> u128
    decreases ds.len(),
{
    if ds.len() == 0 {
        0
    } else {
        let d = ds.last() as int;
        slide_all(ds.drop_last(), sq, occ) | ray(
            rank_of(sq),
            file_of(sq),
            rank_step(d),
            file_step(d),
            occ,
        )
    }
}

/// Relevant-occupancy mask of `sq` for the directions `ds`.
pub open spec fn mask_all(ds: Seq<i8>, sq: int) -> u128
    decreases ds.len(),
{
    if ds.len() == 0 {
        0
    } else {
        let d = ds.last() as int;
        mask_all(ds.drop_last(), sq) | ray_mask(rank_of(sq), file_of(sq), rank_step(d), file_step(d))
    }
}

/// The occupancy folded into 64 bits: squares 63 to 80 land on bits 0 to 17.
pub open spec fn merge_spec(occ: u128) -> u64 {
    ((occ & 0x7fff_ffff_ffff_ffffu128) | (occ >> 63u128)) as u64
}

/// The hashed table index of an occupancy.
pub open spec fn index_of(occ: u128, magic: u64, shift: u32) -> int {
    (merge_spec(occ).wrapping_mul(magic) >> (shift as u64)) as int
}

pub proof fn lemma_or_zero(a: u128)
    by (bit_vector)
    ensures
        a | 0 == a,
        0 | a == a,
{
}

pub proof fn lemma_or_assoc(a: u128, b: u128, c: u128)
    by (bit_vector)
    ensures
        (a | b) | c == a | (b | c),
{
}

pub proof fn lemma_within_single(t: u128)
    by (bit_vector)
    requires
        t < 81,
    ensures
        (1u128 << t) >> 81u128 == 0,
        0u128 >> 81u128 == 0,
{
}

pub proof fn lemma_within_or(a: u128, b: u128)
    by (bit_vector)
    requires
        a >> 81u128 == 0,
        b >> 81u128 == 0,
    ensures
        (a | b) >> 81u128 == 0,
{
}

pub proof fn lemma_within_and(a: u128, b: u128)
    by (bit_vector)
    requires
        a >> 81u128 == 0,
    ensures
        (a & b) >> 81u128 == 0,
        (b & a) >> 81u128 == 0,
{
}

proof fn lemma_subset_split(rest: u128, s: u128, acc: u128)
    by (bit_vector)
    requires
        rest != 0,
        s & !rest == 0,
    ensures
        s & (rest & !(rest & ((rest - 1) as u128))) == 0 ==> s & !(rest & ((rest - 1) as u128))
            == 0,
        s & (rest & !(rest & ((rest - 1) as u128))) != 0 ==> (s & !(rest & !(rest & ((rest
            - 1) as u128)))) & !(rest & ((rest - 1) as u128)) == 0 && acc | s == (acc | (rest
            & !(rest & ((rest - 1) as u128)))) | (s & !(rest & !(rest & ((rest - 1) as u128)))),
{
}

proof fn lemma_subset_empty(s: u128, acc: u128)
    by (bit_vector)
    requires
        s & !0u128 == 0,
    ensures
        acc | s == acc,
{
}

proof fn lemma_index_bound(x: u64, shift: u64)
    by (bit_vector)
    requires
        44 <= shift <= 63,
    ensures
        x >> shift < (1u64 << ((64 - shift) as u64)),
        (1u64 << ((64 - shift) as u64)) <= 0x10_0000,
        (1u64 << ((64 - shift) as u64)) >= 1,
{
}

pub proof fn lemma_ray_within(r: int, f: int, dr: int, df: int, occ: u128)
    ensures
        within_board(ray(r, f, dr, df, occ)),
    decreases room(r, dr) + room(f, df),
{
    lemma_within_single(0);
    if unit(dr, df) && on_board(r, f) && on_board(r + dr, f + df) {
        let t = square_at(r + dr, f + df);
        lemma_within_single(t as u128);
        lemma_ray_within(r + dr, f + df, dr, df, occ);
        lemma_within_or(sq_bit(t), ray(r + dr, f + df, dr, df, occ));
    }
}

pub proof fn lemma_slide_within(ds: Seq<i8>, sq: int, occ: u128)
    ensures
        within_board(slide_all(ds, sq, occ)),
    decreases ds.len(),
{
    lemma_within_single(0);
    if ds.len() > 0 {
        let d = ds.last() as int;
        lemma_slide_within(ds.drop_last(), sq, occ);
        lemma_ray_within(rank_of(sq), file_of(sq), rank_step(d), file_step(d), occ);
        lemma_within_or(
            slide_all(ds.drop_last(), sq, occ),
            ray(rank_of(sq), file_of(sq), rank_step(d), file_step(d), occ),
        );
    }
}

/// A ray reads the occupancy only on the squares of its mask.
pub proof fn lemma_ray_masked(r: int, f: int, dr: int, df: int, o1: u128, o2: u128)
    requires
        forall|t: int| on(ray_mask(r, f, dr, df), t) ==> (#[trigger] on(o1, t) == on(o2, t)),
    ensures
        ray(r, f, dr, df, o1) == ray(r, f, dr, df, o2),
    decreases room(r, dr) + room(f, df),
{
    if unit(dr, df) && on_board(r, f) && on_board(r + dr, f + df) {
        let t = square_at(r + dr, f + df);
        if !on_board(r + 2 * dr, f + 2 * df) {
            assert(ray(r + dr, f + df, dr, df, o1) == 0);
            assert(ray(r + dr, f + df, dr, df, o2) == 0);
            lemma_or_zero(sq_bit(t));
        } else {
            let m = ray_mask(r + dr, f + df, dr, df);
            assert(ray_mask(r, f, dr, df) == sq_bit(t) | m);
            lemma_or(sq_bit(t), m);
            lemma_single(t as u128);
            assert(on(ray_mask(r, f, dr, df), t));
            assert forall|x: int| on(m, x) implies (#[trigger] on(o1, x) == on(o2, x)) by {
                assert(on(ray_mask(r, f, dr, df), x));
            }
            lemma_ray_masked(r + dr, f + df, dr, df, o1, o2);
        }
    }
}

/// Attacks read the occupancy only on the relevant-occupancy mask.
pub proof fn lemma_slide_masked(ds: Seq<i8>, sq: int, o1: u128, o2: u128)
    requires
        forall|t: int| on(mask_all(ds, sq), t) ==> (#[trigger] on(o1, t) == on(o2, t)),
    ensures
        slide_all(ds, sq, o1) == slide_all(ds, sq, o2),
    decreases ds.len(),
{
    if ds.len() > 0 {
        let d = ds.last() as int;
        let pre = mask_all(ds.drop_last(), sq);
        let m = ray_mask(rank_of(sq), file_of(sq), rank_step(d), file_step(d));
        lemma_or(pre, m);
        assert forall|t: int| on(pre, t) implies (#[trigger] on(o1, t) == on(o2, t)) by {
            assert(on(mask_all(ds, sq), t));
        }
        assert forall|t: int| on(m, t) implies (#[trigger] on(o1, t) == on(o2, t)) by {
            assert(on(mask_all(ds, sq), t));
        }
        lemma_slide_masked(ds.drop_last(), sq, o1, o2);
        lemma_ray_masked(rank_of(sq), file_of(sq), rank_step(d), file_step(d), o1, o2);
    }
}

/// Attacks are the same for an occupancy and for its restriction to the mask.
pub proof fn lemma_slide_restrict(ds: Seq<i8>, sq: int, occ: u128)
    ensures
        slide_all(ds, sq, occ) == slide_all(ds, sq, occ & mask_all(ds, sq)),
{
    let m = mask_all(ds, sq);
    lemma_and(occ, m);
    lemma_slide_masked(ds, sq, occ, occ & m);
}

fn direction_steps(d: i8) -> (r: (i8, i8))
    requires
        is_direction(d as int),
    ensures
        r.0 == rank_step(d as int),
        r.1 == file_step(d as int),
        unit(r.0 as int, r.1 as int),
{
    let dr: i8 = if d >= 8 {
        1
    } else if d <= -8 {
        -1
    } else {
        0
    };
    (dr, d - 9 * dr)
}

/// Ray-cast attacks from `sq` along one direction.
pub fn ray_attacks(sq: u8, d: i8, occ: u128) -> (r: u128)
    requires
        sq < 81,
        is_direction(d as int),
    ensures
        r == ray(rank_of(sq as int), file_of(sq as int), rank_step(d as int), file_step(d as int), occ),
{
    let (dr, df) = direction_steps(d);
    let ghost r0 = rank_of(sq as int);
    let ghost f0 = file_of(sq as int);
    let mut r: i8 = (sq / 9) as i8;
    let mut f: i8 = (sq % 9) as i8;
    let mut acc: u128 = 0;
    proof {
        lemma_or_zero(ray(r0, f0, dr as int, df as int, occ));
    }
    loop
        invariant
            on_board(r as int, f as int),
            unit(dr as int, df as int),
            dr == rank_step(d as int),
            df == file_step(d as int),
            r0 == rank_of(sq as int),
            f0 == file_of(sq as int),
            acc | ray(r as int, f as int, dr as int, df as int, occ) == ray(r0, f0, dr as int, df as int, occ),
        decreases room(r as int, dr as int) + room(f as int, df as int),
    {
        let nr = r + dr;
        let nf = f + df;
        if nr < 0 || nr >= 9 || nf < 0 || nf >= 9 {
            assert(ray(r as int, f as int, dr as int, df as int, occ) == 0);
            proof {
                lemma_or_zero(acc);
            }
            return acc;
        }
        let t: u8 = (nr * 9 + nf) as u8;
        let b: u128 = 1u128 << t;
        proof {
            lemma_bit_test(occ, t as u128);
        }
        assert(t as int == square_at(nr as int, nf as int));
        assert(b == sq_bit(t as int));
        if occ & b != 0 {
            assert(ray(r as int, f as int, dr as int, df as int, occ) == b);
            return acc | b;
        }
        proof {
            lemma_or_assoc(acc, b, ray(nr as int, nf as int, dr as int, df as int, occ));
        }
        acc = acc | b;
        r = nr;
        f = nf;
    }
}

/// The relevant-occupancy squares of one direction: the empty-board ray from
/// `sq` without its last square.
fn ray_mask_of(sq: u8, d: i8) -> (r: u128)
    requires
        sq < 81,
        is_direction(d as int),
    ensures
        r == ray_mask(rank_of(sq as int), file_of(sq as int), rank_step(d as int), file_step(d as int)),
{
    let (dr, df) = direction_steps(d);
    let ghost r0 = rank_of(sq as int);
    let ghost f0 = file_of(sq as int);
    let mut r: i8 = (sq / 9) as i8;
    let mut f: i8 = (sq % 9) as i8;
    let mut acc: u128 = 0;
    proof {
        lemma_or_zero(ray_mask(r0, f0, dr as int, df as int));
    }
    loop
        invariant
            on_board(r as int, f as int),
            unit(dr as int, df as int),
            dr == rank_step(d as int),
            df == file_step(d as int),
            r0 == rank_of(sq as int),
            f0 == file_of(sq as int),
            acc | ray_mask(r as int, f as int, dr as int, df as int) == ray_mask(r0, f0, dr as int, df as int),
        decreases room(r as int, dr as int) + room(f as int, df as int),
    {
        let nr = r + dr;
        let nf = f + df;
        if nr < 0 || nr >= 9 || nf < 0 || nf >= 9 || nr + dr < 0 || nr + dr >= 9 || nf + df < 0
            || nf + df >= 9 {
            proof {
                lemma_or_zero(acc);
            }
            return acc;
        }
        let t: u8 = (nr * 9 + nf) as u8;
        let b: u128 = 1u128 << t;
        proof {
            lemma_or_assoc(acc, b, ray_mask(nr as int, nf as int, dr as int, df as int));
        }
        acc = acc | b;
        r = nr;
        f = nf;
    }
}

/// Ray-cast attacks from `sq` along every direction of `deltas`, each up to and
/// including the first occupied square.
pub fn sliding_attacks(deltas: &[i8], sq: u8, occupied: u128) -> (r: u128)
    requires
        sq < 81,
        all_directions(deltas@),
    ensures
        r == slide_all(deltas@, sq as int, occupied),
        within_board(r),
{
    let mut bb: u128 = 0;
    let mut i: usize = 0;
    while i < deltas.len()
        invariant
            i <= deltas@.len(),
            sq < 81,
            all_directions(deltas@),
            bb == slide_all(deltas@.take(i as int), sq as int, occupied),
        decreases deltas@.len() - i,
    {
        let d = deltas[i];
        let a = ray_attacks(sq, d, occupied);
        assert(deltas@.take(i + 1).drop_last() =~= deltas@.take(i as int));
        bb = bb | a;
        i += 1;
    }
    assert(deltas@.take(i as int) =~= deltas@);
    proof {
        lemma_slide_within(deltas@, sq as int, occupied);
    }
    bb
}

/// The relevant-occupancy mask of `sq` for the directions `deltas`.
pub fn attack_mask(deltas: &[i8], sq: u8) -> (r: u128)
    requires
        sq < 81,
        all_directions(deltas@),
    ensures
        r == mask_all(deltas@, sq as int),
{
    let mut bb: u128 = 0;
    let mut i: usize = 0;
    while i < deltas.len()
        invariant
            i <= deltas@.len(),
            sq < 81,
            all_directions(deltas@),
            bb == mask_all(deltas@.take(i as int), sq as int),
        decreases deltas@.len() - i,
    {
        let d = deltas[i];
        let a = ray_mask_of(sq, d);
        assert(deltas@.take(i + 1).drop_last() =~= deltas@.take(i as int));
        bb = bb | a;
        i += 1;
    }
    assert(deltas@.take(i as int) =~= deltas@);
    bb
}

/// The square `delta` indices away from `sq`, if it is on the board.
pub fn checked_add(sq: u8, delta: i8) -> (r: Option<u8>)
    ensures
        0 <= sq + delta < 81 ==> r == Some((sq + delta) as u8),
        !(0 <= sq + delta < 81) ==> r is None,
{
    let res: i16 = sq as i16 + delta as i16;
    if 0 <= res && res < 81 {
        Some(res as u8)
    } else {
        None
    }
}

/// `s` has no bit outside `m`.
pub open spec fn subset(s: u128, m: u128) -> bool {
    s & !m == 0
}

/// The table holds the attacks of occupancy `o` at its hashed index.
pub open spec fn stored(
    table: Seq<u128>,
    filled: Seq<bool>,
    ds: Seq<i8>,
    sq: int,
    magic: u64,
    shift: u32,
    o: u128,
) -> bool {
    let i = index_of(o, magic, shift);
    &&& 0 <= i < table.len()
    &&& i < filled.len()
    &&& filled[i]
    &&& table[i] == slide_all(ds, sq, o)
}

/// The occupancy folded into 64 bits.
fn merge(occ: u128) -> (r: u64)
    ensures
        r == merge_spec(occ),
{
    ((occ & 0x7fff_ffff_ffff_ffff) | (occ >> 63)) as u64
}

/// Two occupancies within `mask` hash to the same index but have different
/// attacks: the multiplier and shift cannot serve square `sq`.
pub open spec fn collides(ds: Seq<i8>, sq: int, magic: u64, shift: u32, mask: u128) -> bool {
    exists|a: u128, b: u128|
        #![trigger index_of(a, magic, shift), index_of(b, magic, shift)]
        subset(a, mask) && subset(b, mask) && index_of(a, magic, shift) == index_of(b, magic, shift)
            && slide_all(ds, sq, a) != slide_all(ds, sq, b)
}

/// Every filled entry holds the attacks of some occupancy within `mask` that
/// hashes to it.
pub open spec fn entries_ok(
    table: Seq<u128>,
    filled: Seq<bool>,
    ds: Seq<i8>,
    sq: int,
    magic: u64,
    shift: u32,
    mask: u128,
) -> bool {
    forall|i: int|
        0 <= i < filled.len() && #[trigger] filled[i] ==> exists|o: u128|
            subset(o, mask) && #[trigger] index_of(o, magic, shift) == i && table[i] == slide_all(ds, sq, o)
}

proof fn lemma_subsets(rest: u128, acc: u128, mask: u128)
    by (bit_vector)
    requires
        rest & !mask == 0,
        acc & !mask == 0,
    ensures
        (rest & ((rest - 1) as u128)) & !mask == 0,
        (acc | (rest & !(rest & ((rest - 1) as u128)))) & !mask == 0,
{
}

/// One entry of the table being built: records the attacks of the occupancy
/// `acc | s` for every subset `s` of `rest`. Fails when two occupancies with
/// different attacks share an index.
fn fill(
    table: &mut Vec<u128>,
    filled: &mut Vec<bool>,
    deltas: &[i8],
    sq: u8,
    magic: u64,
    shift: u32,
    rest: u128,
    acc: u128,
    Ghost(mask): Ghost<u128>,
) -> (ok: bool)
    requires
        sq < 81,
        all_directions(deltas@),
        44 <= shift <= 63,
        old(table)@.len() == old(filled)@.len(),
        old(table)@.len() == (1u64 << ((64 - shift) as u64)),
        subset(rest, mask),
        subset(acc, mask),
        entries_ok(old(table)@, old(filled)@, deltas@, sq as int, magic, shift, mask),
    ensures
        entries_ok(final(table)@, final(filled)@, deltas@, sq as int, magic, shift, mask),
        !ok ==> collides(deltas@, sq as int, magic, shift, mask),
        final(table)@.len() == old(table)@.len(),
        final(filled)@.len() == old(filled)@.len(),
        forall|i: int|
            0 <= i < old(filled)@.len() && #[trigger] old(filled)@[i] ==> final(filled)@[i]
                && final(table)@[i] == old(table)@[i],
        ok ==> forall|s: u128|
            #[trigger] subset(s, rest) ==> stored(
                final(table)@,
                final(filled)@,
                deltas@,
                sq as int,
                magic,
                shift,
                acc | s,
            ),
    decreases rest,
{
    if rest == 0 {
        let i = occ_to_index(acc, magic, shift);
        let v = sliding_attacks(deltas, sq, acc);
        if filled[i] {
            if table[i] != v {
                proof {
                    let o = choose|o: u128|
                        subset(o, mask) && #[trigger] index_of(o, magic, shift) == i && table@[i as int] == slide_all(
                            deltas@,
                            sq as int,
                            o,
                        );
                    assert(subset(o, mask) && subset(acc, mask) && index_of(o, magic, shift) == index_of(acc, magic, shift)
                        && slide_all(deltas@, sq as int, o) != slide_all(deltas@, sq as int, acc));
                }
                return false;
            }
        } else {
            let ghost t0 = table@;
            let ghost f0 = filled@;
            table.set(i, v);
            filled.set(i, true);
            proof {
                assert forall|j: int| 0 <= j < filled@.len() && #[trigger] filled@[j] implies exists|o: u128|
                    subset(o, mask) && #[trigger] index_of(o, magic, shift) == j && table@[j] == slide_all(
                        deltas@,
                        sq as int,
                        o,
                    ) by {
                    if j == i {
                        assert(index_of(acc, magic, shift) == j);
                    } else {
                        assert(f0[j]);
                    }
                }
            }
        }
        assert forall|s: u128| #[trigger] subset(s, rest) implies stored(
            table@,
            filled@,
            deltas@,
            sq as int,
            magic,
            shift,
            acc | s,
        ) by {
            lemma_subset_empty(s, acc);
        }
        true
    } else {
        let rest2 = pop(rest);
        let b = rest & !rest2;
        proof {
            lemma_subsets(rest, acc, mask);
        }
        let ghost t0 = table@;
        let ghost f0 = filled@;
        if !fill(table, filled, deltas, sq, magic, shift, rest2, acc, Ghost(mask)) {
            return false;
        }
        let ghost t1 = table@;
        let ghost f1 = filled@;
        if !fill(table, filled, deltas, sq, magic, shift, rest2, acc | b, Ghost(mask)) {
            return false;
        }
        assert forall|s: u128| #[trigger] subset(s, rest) implies stored(
            table@,
            filled@,
            deltas@,
            sq as int,
            magic,
            shift,
            acc | s,
        ) by {
            lemma_subset_split(rest, s, acc);
            if s & b == 0 {
                assert(subset(s, rest2));
                assert(stored(t1, f1, deltas@, sq as int, magic, shift, acc | s));
                let i = index_of(acc | s, magic, shift);
                assert(f1[i]);
            } else {
                assert(subset(s & !b, rest2));
            }
        }
        true
    }
}

fn occ_to_index(occ: u128, magic: u64, shift: u32) -> (r: usize)
    requires
        44 <= shift <= 63,
    ensures
        r == index_of(occ, magic, shift),
        r < (1u64 << ((64 - shift) as u64)),
{
    let merged = merge(occ);
    let h = merged.wrapping_mul(magic);
    proof {
        lemma_index_bound(h, shift as u64);
    }
    (h >> (shift as u64)) as usize
}

/// The hashed attack table of one square.
pub struct Magic {
    mask: u128,
    magic: u64,
    attacks: Vec<u128>,
    shift: u32,
    deltas: Ghost<Seq<i8>>,
    square: Ghost<int>,
}

impl Magic {
    /// The directions the table was built for.
    pub closed spec fn directions(&self) -> Seq<i8> {
        self.deltas@
    }

    /// The square the table was built for.
    pub closed spec fn square(&self) -> int {
        self.square@
    }

    /// Every occupancy within the mask hashes to an entry holding its attacks.
    pub closed spec fn wf(&self) -> bool {
        &&& 0 <= self.square@ < 81
        &&& all_directions(self.deltas@)
        &&& 44 <= self.shift <= 63
        &&& self.attacks@.len() == (1u64 << ((64 - self.shift) as u64))
        &&& self.mask == mask_all(self.deltas@, self.square@)
        &&& forall|s: u128|
            #[trigger] subset(s, self.mask) ==> self.attacks@[index_of(s, self.magic, self.shift)]
                == slide_all(self.deltas@, self.square@, s)
    }

    /// Builds the table of `sq` from its magic number and shift; `None` when two
    /// occupancies with different attacks collide, or the shift is out of range.
    pub fn build(deltas: &[i8], sq: u8, magic: u64, shift: u32) -> (r: Option<Magic>)
        requires
            sq < 81,
            all_directions(deltas@),
        ensures
            r matches Some(m) ==> m.wf() && m.square() == sq && m.directions() == deltas@
                && m.table_len() == (1u64 << ((64 - shift) as u64)),
            r is None <==> (shift < 44 || shift > 63 || collides(
                deltas@,
                sq as int,
                magic,
                shift,
                mask_all(deltas@, sq as int),
            )),
    {
        if shift < 44 || shift > 63 {
            return None;
        }
        let mask = attack_mask(deltas, sq);
        let len: u64 = 1u64 << (64 - shift as u64);
        let mut table: Vec<u128> = Vec::new();
        let mut filled: Vec<bool> = Vec::new();
        proof {
            lemma_index_bound(0, shift as u64);
        }
        while (table.len() as u64) < len
            invariant
                table@.len() == filled@.len(),
                table@.len() <= len,
                len <= 0x10_0000,
                forall|i: int| 0 <= i < filled@.len() ==> !#[trigger] filled@[i],
            decreases len - table@.len(),
        {
            table.push(0);
            filled.push(false);
        }
        proof {
            assert(subset(mask, mask) && subset(0, mask)) by (bit_vector);
        }
        if !fill(&mut table, &mut filled, deltas, sq, magic, shift, mask, 0, Ghost(mask)) {
            return None;
        }
        let m = Magic {
            mask,
            magic,
            attacks: table,
            shift,
            deltas: Ghost(deltas@),
            square: Ghost(sq as int),
        };
        assert forall|s: u128| #[trigger] subset(s, m.mask) implies m.attacks@[index_of(
            s,
            m.magic,
            m.shift,
        )] == slide_all(m.deltas@, m.square@, s) by {
            lemma_or_zero(s);
        }
        proof {
            m.lemma_no_collision();
        }
        Some(m)
    }

    /// A table that verifies has no collision.
    proof fn lemma_no_collision(&self)
        requires
            self.wf(),
        ensures
            !collides(self.deltas@, self.square@, self.magic, self.shift, self.mask),
    {
        if collides(self.deltas@, self.square@, self.magic, self.shift, self.mask) {
            let (a, b) = choose|a: u128, b: u128|
                #![trigger index_of(a, self.magic, self.shift), index_of(b, self.magic, self.shift)]
                subset(a, self.mask) && subset(b, self.mask) && index_of(a, self.magic, self.shift) == index_of(
                    b,
                    self.magic,
                    self.shift,
                ) && slide_all(self.deltas@, self.square@, a) != slide_all(self.deltas@, self.square@, b);
            assert(self.attacks@[index_of(a, self.magic, self.shift)] == slide_all(self.deltas@, self.square@, a));
            assert(self.attacks@[index_of(b, self.magic, self.shift)] == slide_all(self.deltas@, self.square@, b));
        }
    }

    /// Number of entries of the table.
    pub closed spec fn table_len(&self) -> nat {
        self.attacks@.len()
    }

    /// Attacks for the occupancy `occ`, by one hashed lookup.
    pub fn attack(&self, occ: u128) -> (r: u128)
        requires
            self.wf(),
        ensures
            r == slide_all(self.directions(), self.square(), occ),
    {
        let masked = occ & self.mask;
        proof {
            lemma_masked_subset(occ, self.mask);
            lemma_slide_restrict(self.deltas@, self.square@, occ);
        }
        let i = occ_to_index(masked, self.magic, self.shift);
        self.attacks[i]
    }

    /// Attacks on the empty board.
    pub fn pseudo_attack(&self) -> (r: u128)
        requires
            self.wf(),
        ensures
            r == slide_all(self.directions(), self.square(), 0),
    {
        proof {
            lemma_masked_subset(0, self.mask);
            lemma_index_zero(self.magic, self.shift);
            lemma_index_bound(0, self.shift as u64);
        }
        self.attacks[0]
    }
}

proof fn lemma_masked_subset(occ: u128, m: u128)
    by (bit_vector)
    ensures
        subset(occ & m, m),
        0u128 & m == 0,
{
}

proof fn lemma_index_zero(magic: u64, shift: u32)
    ensures
        index_of(0, magic, shift) == 0,
{
    assert(merge_spec(0) == 0) by (bit_vector);
    assert(0u64.wrapping_mul(magic) == 0) by {
        vstd::arithmetic::mul::lemma_mul_basics(magic as int);
    }
    assert(0u64 >> (shift as u64) == 0) by (bit_vector);
}

/// The constants cannot serve square `sq`: its shift is out of range, or two of
/// its occupancies collide.
pub open spec fn square_fails(shifts: Seq<i8>, magics: Seq<u64>, ds: Seq<i8>, sq: int) -> bool {
    !(44 <= shifts[sq] <= 63) || collides(ds, sq, magics[sq], shifts[sq] as u32, mask_all(ds, sq))
}

/// Total size of the tables of the first `n` squares.
pub open spec fn entries_total(shifts: Seq<i8>, n: int) -> int
    decreases n,
{
    if n <= 0 {
        0
    } else {
        entries_total(shifts, n - 1) + (1u64 << ((64 - shifts[n - 1]) as u64)) as int
    }
}

/// Building from these constants fails: some square cannot be served, or the
/// tables do not add up to `table_num` entries.
pub open spec fn construction_fails(table_num: int, shifts: Seq<i8>, magics: Seq<u64>, ds: Seq<i8>) -> bool {
    (exists|sq: int| 0 <= sq < 81 && #[trigger] square_fails(shifts, magics, ds, sq)) || entries_total(shifts, 81)
        != table_num
}

/// The hashed attack tables of one kind of slider, one per square.
pub struct MagicTable {
    magics: Vec<Magic>,
    deltas: Ghost<Seq<i8>>,
}

impl MagicTable {
    /// The directions the tables were built for.
    pub closed spec fn directions(&self) -> Seq<i8> {
        self.deltas@
    }

    pub closed spec fn wf(&self) -> bool {
        &&& self.magics@.len() == 81
        &&& forall|sq: int|
            0 <= sq < 81 ==> {
                &&& (#[trigger] self.magics@[sq]).wf()
                &&& self.magics@[sq].square() == sq
                &&& self.magics@[sq].directions() == self.deltas@
            }
    }

    /// Builds the tables of all 81 squares. `None` on a configuration error: a
    /// collision between occupancies with different attacks, a shift out of
    /// range, or a total size other than `table_num`.
    pub fn new(table_num: usize, shifts: &[i8; 81], magic_nums: &[u64; 81], deltas: &[i8]) -> (r:
        Option<MagicTable>)
        requires
            all_directions(deltas@),
        ensures
            r matches Some(t) ==> t.wf() && t.directions() == deltas@,
            r is None <==> construction_fails(table_num as int, shifts@, magic_nums@, deltas@),
    {
        let mut magics: Vec<Magic> = Vec::new();
        let mut count: u64 = 0;
        let mut sq: u8 = 0;
        while sq < 81
            invariant
                sq <= 81,
                magics@.len() == sq,
                count <= sq * 0x10_0000,
                count == entries_total(shifts@, sq as int),
                forall|i: int| 0 <= i < sq ==> !#[trigger] square_fails(shifts@, magic_nums@, deltas@, i),
                all_directions(deltas@),
                forall|i: int|
                    0 <= i < sq ==> {
                        &&& (#[trigger] magics@[i]).wf()
                        &&& magics@[i].square() == i
                        &&& magics@[i].directions() == deltas@
                    },
            decreases 81 - sq,
        {
            let shift = shifts[sq as usize];
            if shift < 0 {
                proof {
                    assert(square_fails(shifts@, magic_nums@, deltas@, sq as int));
                }
                return None;
            }
            let m = match Magic::build(deltas, sq, magic_nums[sq as usize], shift as u32) {
                Some(m) => m,
                None => {
                    proof {
                        assert(square_fails(shifts@, magic_nums@, deltas@, sq as int));
                    }
                    return None;
                },
            };
            proof {
                lemma_index_bound(0, m.shift as u64);
                assert(!square_fails(shifts@, magic_nums@, deltas@, sq as int));
                assert(entries_total(shifts@, sq + 1) == entries_total(shifts@, sq as int) + m.attacks@.len());
            }
            count = count + m.attacks.len() as u64;
            magics.push(m);
            sq += 1;
        }
        if count != table_num as u64 {
            return None;
        }
        Some(MagicTable { magics, deltas: Ghost(deltas@) })
    }

    /// The tables of the diagonal slider.
    pub fn bishop() -> (r: Option<MagicTable>)
        ensures
            r matches Some(t) ==> t.wf() && t.directions() == bishop_directions(),
            r is None <==> bishop_fails(),
    {
        let deltas: [i8; 4] = [Square::DELTA_NE, Square::DELTA_SE, Square::DELTA_SW, Square::DELTA_NW];
        assert(deltas@ == bishop_directions());
        MagicTable::new(BISHOP_ATTACK_TABLE_NUM, &BISHOP_SHIFT_BITS, &BISHOP_MAGICS, &deltas)
    }

    /// The tables of the orthogonal slider.
    pub fn rook() -> (r: Option<MagicTable>)
        ensures
            r matches Some(t) ==> t.wf() && t.directions() == rook_directions(),
            r is None <==> rook_fails(),
    {
        let deltas: [i8; 4] = [Square::DELTA_N, Square::DELTA_E, Square::DELTA_S, Square::DELTA_W];
        assert(deltas@ == rook_directions());
        MagicTable::new(ROOK_ATTACK_TABLE_NUM, &ROOK_SHIFT_BITS, &ROOK_MAGICS, &deltas)
    }

    /// The tables of the forward-only slider of `side`, hashed with the orthogonal
    /// slider's constants (its masks are part of the orthogonal ones).
    pub fn lance(side: Side) -> (r: Option<MagicTable>)
        ensures
            r matches Some(t) ==> t.wf() && t.directions() == lance_directions(side),
            r is None <==> lance_fails(side),
    {
        let d: i8 = match side {
            Side::Sente => Square::DELTA_N,
            Side::Gote => Square::DELTA_S,
        };
        let deltas: [i8; 1] = [d];
        assert(deltas@ == lance_directions(side));
        MagicTable::new(ROOK_ATTACK_TABLE_NUM, &ROOK_SHIFT_BITS, &ROOK_MAGICS, &deltas)
    }

    pub fn magic(&self, sq: u8) -> (r: &Magic)
        requires
            self.wf(),
            sq < 81,
        ensures
            r.wf(),
            r.square() == sq,
            r.directions() == self.directions(),
    {
        &self.magics[sq as usize]
    }

    /// Attacks from `sq` for the occupancy `occ`, by one hashed lookup.
    pub fn attack(&self, sq: u8, occ: u128) -> (r: u128)
        requires
            self.wf(),
            sq < 81,
        ensures
            r == slide_all(self.directions(), sq as int, occ),
    {
        self.magic(sq).attack(occ)
    }
}

/// The published diagonal-slider constants fail to build.
pub open spec fn bishop_fails() -> bool {
    construction_fails(BISHOP_ATTACK_TABLE_NUM as int, BISHOP_SHIFT_BITS@, BISHOP_MAGICS@, bishop_directions())
}

/// The published orthogonal-slider constants fail to build.
pub open spec fn rook_fails() -> bool {
    construction_fails(ROOK_ATTACK_TABLE_NUM as int, ROOK_SHIFT_BITS@, ROOK_MAGICS@, rook_directions())
}

/// The orthogonal-slider constants fail to build the forward-only tables of `side`.
pub open spec fn lance_fails(side: Side) -> bool {
    construction_fails(ROOK_ATTACK_TABLE_NUM as int, ROOK_SHIFT_BITS@, ROOK_MAGICS@, lance_directions(side))
}

pub open spec fn bishop_directions() -> Seq<i8> {
    seq![10i8, -8i8, -10i8, 8i8]
}

pub open spec fn rook_directions() -> Seq<i8> {
    seq![9i8, 1i8, -9i8, -1i8]
}

pub open spec fn lance_directions(side: Side) -> Seq<i8> {
    seq![(forward(side) * 9) as i8]
}

/// Total entries of the diagonal slider's tables.
pub const BISHOP_ATTACK_TABLE_NUM: usize = 20224;

/// Total entries of the orthogonal slider's tables.
pub const ROOK_ATTACK_TABLE_NUM: usize = 512_000;

/// Per square, how far the orthogonal slider's product is shifted down.
pub const ROOK_SHIFT_BITS: [i8; 81] = [
    50, 51, 51, 51, 51, 51, 51, 51, 50,
    51, 52, 52, 52, 52, 52, 52, 52, 50,
    51, 52, 52, 52, 52, 52, 52, 52, 51,
    51, 52, 52, 52, 52, 52, 52, 52, 51,
    51, 52, 52, 52, 52, 52, 52, 52, 51,
    51, 52, 52, 52, 52, 52, 52, 52, 50,
    51, 52, 52, 52, 52, 52, 52, 52, 51,
    51, 52, 52, 52, 52, 52, 52, 52, 51,
    50, 51, 51, 51, 51, 51, 51, 51, 50,
];

/// Per square, how far the diagonal slider's product is shifted down.
pub const BISHOP_SHIFT_BITS: [i8; 81] = [
    57, 58, 58, 58, 58, 58, 58, 58, 57,
    58, 58, 58, 58, 58, 58, 58, 58, 58,
    58, 58, 56, 56, 56, 56, 56, 58, 58,
    58, 58, 56, 54, 54, 54, 56, 58, 58,
    58, 58, 56, 54, 52, 54, 56, 58, 58,
    58, 58, 56, 54, 54, 54, 56, 58, 58,
    58, 58, 56, 56, 56, 56, 56, 58, 58,
    58, 58, 58, 58, 58, 58, 58, 58, 58,
    57, 58, 58, 58, 58, 58, 58, 58, 57,
];

/// Per square, the multiplier hashing the diagonal slider's occupancies.
pub const BISHOP_MAGICS: [u64; 81] = [
    0x2010_1042_c820_0428, 0x0000_8402_4038_0102, 0x8008_00c0_1810_8251,
    0x0082_4280_1030_1000, 0x0481_0082_0100_0040, 0x8081_0204_2088_0800,
    0x0000_8042_2211_0000, 0x0000_e283_0140_0850, 0x2010_2214_2080_0810,
    0x2600_0100_2880_1824, 0x0008_0481_0210_2002, 0x4000_2481_0024_0402,
    0x4920_0200_428a_2108, 0x0000_4609_0402_0844, 0x2001_4010_2083_0200,
    0x0000_0010_0900_8120, 0x4804_0640_0820_8004, 0x4406_0002_4030_0ca0,
    0x0222_0014_0080_3220, 0x0226_0684_0018_2094, 0x9520_8402_010d_0104,
    0x4000_8075_0010_8102, 0xc000_2000_8050_0500, 0x5211_0003_0403_8020,
    0x1108_1001_8040_0820, 0x1000_1280_a8a2_1040, 0x1000_0480_9408_a210,
    0x0202_3000_0204_1112, 0x0404_0a80_0046_0408, 0x0204_0200_2104_0201,
    0x0008_1200_1318_0404, 0xa284_0080_0d02_0104, 0x200c_2010_0060_4080,
    0x1082_0040_0010_9408, 0x1000_21c0_0c41_0408, 0x8808_2090_5004_c801,
    0x1054_0640_8000_4120, 0x030c_0a02_2400_1030, 0x0300_0601_0004_0821,
    0x0512_0080_1020_c006, 0x2100_0400_4280_2801, 0x0481_0008_2040_1002,
    0x4040_8a04_5000_0801, 0x0081_0104_2000_00a2, 0x0281_1021_0210_8408,
    0x0804_0200_4028_0021, 0x2420_4012_0022_0040, 0x0800_1014_4080_c402,
    0x0080_1044_0080_0002, 0x1009_0480_8040_0081, 0x1000_8200_0201_008c,
    0x0010_0010_0808_0009, 0x02a5_006b_8008_0004, 0xc628_8018_200c_2884,
    0x1081_0010_4200_a000, 0x0141_0020_3081_4048, 0x0200_2040_8001_0808,
    0x0200_0040_1392_2002, 0x2200_0000_2005_0815, 0x2011_0104_0004_0800,
    0x1020_0400_0422_0200, 0x0944_0201_0484_0081, 0x6080_a080_801c_044a,
    0x2088_4008_1100_8020, 0x000c_40aa_0420_8070, 0x4100_8004_4090_0220,
    0x0000_0000_4811_2050, 0x8182_00d0_6201_2a10, 0x0402_0084_0450_8302,
    0x0000_1000_2010_1002, 0x0020_0404_2050_4912, 0x0002_0040_0811_8814,
    0x1000_8106_5008_4024, 0x1002_a030_0240_8804, 0x2104_2948_0118_1420,
    0x0841_0802_4050_0812, 0x4406_0090_0000_4884, 0x0080_0820_0401_2412,
    0x0080_0908_8080_8183, 0x0300_1200_2040_0410, 0x021a_0901_0082_2002,
];

/// Per square, the multiplier hashing the orthogonal slider's occupancies.
pub const ROOK_MAGICS: [u64; 81] = [
    0x0140_0004_0080_9300, 0x1320_0009_0200_0240, 0x0080_0191_0c00_8180,
    0x0040_0200_0440_1040, 0x0040_0100_00d0_1120, 0x0080_0480_2008_4050,
    0x0040_0040_0008_0228, 0x0040_0440_000a_2a0a, 0x0040_0031_0101_0102,
    0x80c4_2000_1210_8100, 0x4010_c002_0400_0c01, 0x0220_4001_0325_0002,
    0x0002_6002_0000_4001, 0x0040_2000_5240_0020, 0x0c00_1000_2002_0008,
    0x9080_2010_0020_0004, 0x2200_2010_0008_0004, 0x8080_4c00_2020_0191,
    0x0045_3830_0000_9100, 0x0030_0028_0002_0040, 0x0040_1040_0098_8084,
    0x0108_0010_0080_0415, 0x0014_0050_0040_0009, 0x0d21_0010_01c0_0045,
    0x00c0_0030_0020_0024, 0x0040_0030_0028_0004, 0x0040_0210_0009_1102,
    0x2008_a204_0800_0d00, 0x2000_1000_8401_0040, 0x0144_0800_0800_8001,
    0x5010_2400_1000_26a2, 0x1040_0200_0800_1010, 0x1200_2000_2800_5010,
    0x4280_0300_3002_0898, 0x0480_0814_1001_1004, 0x0340_0004_0800_110a,
    0x0010_1000_010c_0021, 0x0009_2108_0008_0082, 0x0610_0002_0004_00a7,
    0xa224_0800_9008_00c0, 0x9220_0820_0100_0801, 0x1040_0080_0114_0030,
    0x0040_0022_2004_0008, 0x0280_0012_4008_010c, 0x0040_0084_0494_0002,
    0x0040_0408_0001_0200, 0x0090_0008_0900_2100, 0x2800_0800_0100_0201,
    0x1400_0200_0100_0201, 0x0180_0810_1401_8004, 0x1100_0080_0040_0201,
    0x0080_0040_0020_0201, 0x0420_8000_1000_0201, 0x2841_c000_8020_0209,
    0x0120_0024_0104_0001, 0x0145_1000_0101_000b, 0x0040_0800_0080_8001,
    0x0834_0001_8804_8001, 0x4001_2100_0080_0205, 0x0488_9a80_0740_0201,
    0x2080_0440_8020_0062, 0x0080_0040_0286_1002, 0x0000_c008_4204_9024,
    0x8040_0002_0202_0011, 0x0040_0404_002c_0100, 0x2080_0282_0200_0102,
    0x8100_0408_0059_0224, 0x2040_0090_0480_0010, 0x0040_0450_0040_0408,
    0x2200_2400_2080_2008, 0x4080_0420_0220_0204, 0x0040_00b0_000a_00a2,
    0x000a_6000_0081_0100, 0x0014_1000_0d00_1180, 0x0002_2001_0100_1080,
    0x1000_2001_4104_e120, 0x2407_2001_0000_4810, 0x8014_4000_a084_5050,
    0x1000_2000_6003_0c18, 0x4004_2000_2001_0102, 0x0140_6000_2101_0302,
];
} // verus!
