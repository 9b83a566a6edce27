use crate::attacks::Tables;
use crate::board::Board;
use crate::movegen::lemma_pseudo_legal_applies;
use crate::moves::{lemma_moves_finite, list_get, list_len, list_moves, Move};
use vstd::prelude::*;

verus! {

/// The position reached by applying `m` to `b` (there is exactly one when `m`
/// can be applied).
pub open spec fn after(b: Board, m: Move) -> Board {
    choose|a: Board| b.applied(m, a)
}

/// The pseudo-legal moves of the side to move.
pub open spec fn moves_of(b: Board) -> Set<Move> {
    Set::new(|m: Move| b.is_pseudo_legal(m))
}

/// Number of leaves of the tree of pseudo-legal moves `depth` plies deep, as a
/// function of the position: 1 at depth 0, else the sum over the moves of the
/// leaves below the position each one reaches.
pub open spec fn leaves_fn(depth: nat) -> spec_fn(Board) -> nat
    decreases depth,
{
    if depth == 0 {
        |b: Board| 1nat
    } else {
        let below = leaves_fn((depth - 1) as nat);
        |b: Board| moves_of(b).fold(0nat, |acc: nat, m: Move| acc + below(after(b, m)))
    }
}

/// Number of leaves of the tree of pseudo-legal moves of `b`, `depth` plies deep.
pub open spec fn leaves(b: Board, depth: nat) -> nat {
    leaves_fn(depth)(b)
}

/// Every position of the tree, above the last ply, has fewer than 600 moves.
pub open spec fn fits(b: Board, depth: nat) -> bool
    decreases depth,
{
    depth == 0 || (b.move_total() < 600 && forall|m: Move|
        #[trigger] b.is_pseudo_legal(m) ==> fits(after(b, m), (depth - 1) as nat))
}

/// `n`, or `u64::MAX` when it is larger.
pub open spec fn capped_u64(n: nat) -> u64 {
    if n > u64::MAX {
        u64::MAX
    } else {
        n as u64
    }
}

/// Counts the leaves of the tree of pseudo-legal moves `depth` plies deep
/// (saturating at `u64::MAX`). The count is exact whenever no position above
/// the last ply has more moves than a move list holds.
pub fn perft(t: &Tables, board: &Board, depth: u8) -> (r: u64)
    requires
        t.wf(),
        board.wf(),
    ensures
        depth == 0 ==> r == 1,
        depth == 1 && board.move_total() < 600 ==> r == board.move_total(),
        fits(*board, depth as nat) ==> r == capped_u64(leaves(*board, depth as nat)),
    decreases depth,
{
    if depth == 0 {
        return 1;
    }
    let mut nodes: u64 = 0;
    let moves = board.generate_moves(t);
    let n = list_len(&moves);
    let ghost l = list_moves(moves);
    let ghost d1 = (depth - 1) as nat;
    let ghost f = |acc: nat, m: Move| acc + leaves_fn(d1)(after(*board, m));
    proof {
        let all = moves_of(*board);
        lemma_moves_finite();
        vstd::set_lib::lemma_set_subset_finite(Set::<Move>::full(), all);
        l.unique_seq_to_set();
        assert(l.to_set().subset_of(all));
        vstd::set_lib::lemma_len_subset(l.to_set(), all);
        if l.len() < 600 {
            assert(all =~= l.to_set());
        }
        if fits(*board, depth as nat) {
            assert(board.move_total() == all.len());
        }
        assert(vstd::set::fold::is_fun_commutative(f));
        assert(l.take(0).to_set() =~= Set::<Move>::empty());
        vstd::set::fold::lemma_fold_empty(0nat, f);
    }
    let mut i: usize = 0;
    while i < n
        invariant
            i <= n,
            n == list_moves(moves).len(),
            l == list_moves(moves),
            l.no_duplicates(),
            t.wf(),
            board.wf(),
            board.all_pseudo_legal(list_moves(moves)),
            depth > 0,
            d1 == depth - 1,
            f == (|acc: nat, m: Move| acc + leaves_fn(d1)(after(*board, m))),
            vstd::set::fold::is_fun_commutative(f),
            n <= 600,
            depth == 1 ==> nodes == i,
            fits(*board, depth as nat) ==> nodes == capped_u64(l.take(i as int).to_set().fold(0nat, f)),
            fits(*board, depth as nat) ==> moves_of(*board) == l.to_set(),
        decreases n - i,
    {
        let m = list_get(&moves, i);
        let mut next = *board;
        proof {
            lemma_pseudo_legal_applies(*board, m);
        }
        next.make(&m);
        let c = perft(t, &next, depth - 1);
        proof {
            board.lemma_applied_unique(m, next, after(*board, m));
            let s0 = l.take(i as int).to_set();
            assert(l.take(i + 1) =~= l.take(i as int).push(m));
            l.take(i as int).lemma_push_to_set_commute(m);
            if s0.contains(m) {
                let k = choose|k: int| 0 <= k < i && l.take(i as int)[k] == m;
                assert(l[k] == l[i as int]);
            }
            vstd::seq_lib::seq_to_set_is_finite(l.take(i as int));
            vstd::set::fold::lemma_fold_insert(s0, 0nat, f, m);
            if fits(*board, depth as nat) {
                assert(board.is_pseudo_legal(m));
            }
        }
        nodes = nodes.saturating_add(c);
        i += 1;
    }
    proof {
        assert(l.take(n as int) =~= l);
        if fits(*board, depth as nat) {
            assert(leaves(*board, depth as nat) == moves_of(*board).fold(0nat, f));
        }
        if depth == 1 && board.move_total() < 600 {
            assert(nodes == list_moves(moves).len());
        }
    }
    nodes
}

} // verus!
