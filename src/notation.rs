use crate::board::{Board, Hand};
use crate::consts::{file_of, piece_at_index, promoted, rank_of, square_at, unpromoted, Piece, Side};
use vstd::string::StringExecFns;
use vstd::prelude::*;
use vstd::std_specs::iter::IteratorSpec;

verus! {

/// The characters of `s`, in order.
pub fn chars_of(s: &str) -> (r: Vec<char>)
    ensures
        r@ == s@,
{
    let mut out: Vec<char> = Vec::new();
    let mut it = s.chars();
    let ghost all = s@;
    proof {
        vstd::string::axiom_spec_iter(s);
    }
    loop
        invariant
            out@ + it.remaining() == all,
            all == s@,
            IteratorSpec::decrease(&it) is Some,
        decreases IteratorSpec::decrease(&it)->0,
    {
        let ghost before = it;
        match it.next() {
            Some(c) => {
                proof {
                    vstd::string::next_postcondition(&before, &it, Some(c));
                    assert(out@.push(c) + it.remaining() =~= out@ + before.remaining());
                }
                out.push(c);
            },
            None => {
                proof {
                    vstd::string::next_postcondition(&before, &it, None);
                    assert(out@ + before.remaining() =~= out@);
                }
                return out;
            },
        }
    }
}

/// The letter of a kind, upper case for the first side and lower case for the
/// second; a promoted kind shows its base kind's letter.
pub open spec fn letter(p: Piece, side: Side) -> char {
    let up = match unpromoted(p) {
        Piece::Pawn => 'P',
        Piece::Lance => 'L',
        Piece::Knight => 'N',
        Piece::Silver => 'S',
        Piece::Gold => 'G',
        Piece::Bishop => 'B',
        Piece::Rook => 'R',
        _ => 'K',
    };
    match side {
        Side::Sente => up,
        Side::Gote => lower(up),
    }
}

/// Lower case of the piece letters.
pub open spec fn lower(c: char) -> char {
    if c == 'P' {
        'p'
    } else if c == 'L' {
        'l'
    } else if c == 'N' {
        'n'
    } else if c == 'S' {
        's'
    } else if c == 'G' {
        'g'
    } else if c == 'B' {
        'b'
    } else if c == 'R' {
        'r'
    } else if c == 'K' {
        'k'
    } else {
        c
    }
}

pub open spec fn is_promoted(p: Piece) -> bool {
    unpromoted(p) != p
}

/// The text of a piece of `side`: its letter, after a '+' when promoted.
pub open spec fn token(p: Piece, side: Side) -> Seq<char> {
    if is_promoted(p) {
        seq!['+', letter(p, side)]
    } else {
        seq![letter(p, side)]
    }
}

/// The kind named by a letter of either case.
pub open spec fn piece_of_letter(c: char) -> Option<Piece> {
    if c == 'P' || c == 'p' {
        Some(Piece::Pawn)
    } else if c == 'L' || c == 'l' {
        Some(Piece::Lance)
    } else if c == 'N' || c == 'n' {
        Some(Piece::Knight)
    } else if c == 'S' || c == 's' {
        Some(Piece::Silver)
    } else if c == 'G' || c == 'g' {
        Some(Piece::Gold)
    } else if c == 'B' || c == 'b' {
        Some(Piece::Bishop)
    } else if c == 'R' || c == 'r' {
        Some(Piece::Rook)
    } else if c == 'K' || c == 'k' {
        Some(Piece::King)
    } else {
        None
    }
}

/// The kind named by a piece text of either case: a letter, or '+' and the
/// letter of a kind that has a promoted form.
pub open spec fn piece_of_text(t: Seq<char>) -> Option<Piece> {
    if t.len() == 1 {
        piece_of_letter(t[0])
    } else if t.len() == 2 && t[0] == '+' {
        match piece_of_letter(t[1]) {
            Some(b) => promoted(b),
            None => None,
        }
    } else {
        None
    }
}

pub open spec fn is_upper(c: char) -> bool {
    'A' <= c <= 'Z'
}

/// The decimal digit of `d`.
pub open spec fn digit_char(d: int) -> char {
    if d == 0 {
        '0'
    } else if d == 1 {
        '1'
    } else if d == 2 {
        '2'
    } else if d == 3 {
        '3'
    } else if d == 4 {
        '4'
    } else if d == 5 {
        '5'
    } else if d == 6 {
        '6'
    } else if d == 7 {
        '7'
    } else if d == 8 {
        '8'
    } else {
        '9'
    }
}

/// The value of a decimal digit, if `c` is one.
pub open spec fn digit_value(c: char) -> Option<int> {
    if '0' <= c <= '9' {
        Some(c as int - '0' as int)
    } else {
        None
    }
}

/// `n` written in decimal.
pub open spec fn decimal(n: nat) -> Seq<char>
    decreases n,
{
    if n < 10 {
        seq![digit_char(n as int)]
    } else {
        decimal(n / 10) + seq![digit_char((n % 10) as int)]
    }
}

/// The text of a single-character literal.
fn literal(c: char) -> (r: &'static str)
    requires
        c == '/' || c == ' ' || c == '+' || c == '-' || c == 'b' || c == 'w',
    ensures
        r@ == seq![c],
{
    if c == '/' {
        proof {
            reveal_strlit("/");
        }
        "/"
    } else if c == ' ' {
        proof {
            reveal_strlit(" ");
        }
        " "
    } else if c == '+' {
        proof {
            reveal_strlit("+");
        }
        "+"
    } else if c == '-' {
        proof {
            reveal_strlit("-");
        }
        "-"
    } else if c == 'b' {
        proof {
            reveal_strlit("b");
        }
        "b"
    } else {
        proof {
            reveal_strlit("w");
        }
        "w"
    }
}

/// The text of the digit `d`.
fn digit_text(d: u8) -> (r: &'static str)
    requires
        d < 10,
    ensures
        r@ == seq![digit_char(d as int)],
{
    match d {
        0 => {
            proof {
                reveal_strlit("0");
            }
            "0"
        },
        1 => {
            proof {
                reveal_strlit("1");
            }
            "1"
        },
        2 => {
            proof {
                reveal_strlit("2");
            }
            "2"
        },
        3 => {
            proof {
                reveal_strlit("3");
            }
            "3"
        },
        4 => {
            proof {
                reveal_strlit("4");
            }
            "4"
        },
        5 => {
            proof {
                reveal_strlit("5");
            }
            "5"
        },
        6 => {
            proof {
                reveal_strlit("6");
            }
            "6"
        },
        7 => {
            proof {
                reveal_strlit("7");
            }
            "7"
        },
        8 => {
            proof {
                reveal_strlit("8");
            }
            "8"
        },
        _ => {
            proof {
                reveal_strlit("9");
            }
            "9"
        },
    }
}

/// The text of the letter of `p` for `side`.
fn letter_text(p: Piece, side: Side) -> (r: &'static str)
    ensures
        r@ == seq![letter(p, side)],
{
    let up = match p.to_base_piece() {
        Piece::Pawn => 0u8,
        Piece::Lance => 1,
        Piece::Knight => 2,
        Piece::Silver => 3,
        Piece::Gold => 4,
        Piece::Bishop => 5,
        Piece::Rook => 6,
        _ => 7,
    };
    match side {
        Side::Sente => match up {
            0 => { proof { reveal_strlit("P"); } "P" },
            1 => { proof { reveal_strlit("L"); } "L" },
            2 => { proof { reveal_strlit("N"); } "N" },
            3 => { proof { reveal_strlit("S"); } "S" },
            4 => { proof { reveal_strlit("G"); } "G" },
            5 => { proof { reveal_strlit("B"); } "B" },
            6 => { proof { reveal_strlit("R"); } "R" },
            _ => { proof { reveal_strlit("K"); } "K" },
        },
        Side::Gote => match up {
            0 => { proof { reveal_strlit("p"); } "p" },
            1 => { proof { reveal_strlit("l"); } "l" },
            2 => { proof { reveal_strlit("n"); } "n" },
            3 => { proof { reveal_strlit("s"); } "s" },
            4 => { proof { reveal_strlit("g"); } "g" },
            5 => { proof { reveal_strlit("b"); } "b" },
            6 => { proof { reveal_strlit("r"); } "r" },
            _ => { proof { reveal_strlit("k"); } "k" },
        },
    }
}

/// Appends `n` in decimal.
fn append_decimal(out: &mut String, n: u8)
    ensures
        final(out)@ == old(out)@ + decimal(n as nat),
{
    if n >= 100 {
        out.append(digit_text(n / 100));
        out.append(digit_text((n / 10) % 10));
        out.append(digit_text(n % 10));
        assert(decimal(n as nat) == decimal((n / 10) as nat) + seq![digit_char((n % 10) as int)]);
        assert(decimal((n / 10) as nat) == decimal((n / 100) as nat) + seq![digit_char(((n / 10) % 10) as int)]);
    } else if n >= 10 {
        out.append(digit_text(n / 10));
        out.append(digit_text(n % 10));
        assert(decimal(n as nat) == decimal((n / 10) as nat) + seq![digit_char((n % 10) as int)]);
    } else {
        out.append(digit_text(n));
    }
}

impl Piece {
    /// The text of this kind for `side`.
    pub fn to_str(&self, side: Side) -> (r: String)
        ensures
            r@ == token(*self, side),
    {
        let mut s = String::new();
        if *self != self.to_base_piece() {
            s.append(literal('+'));
        }
        s.append(letter_text(*self, side));
        s
    }
}

/// A run of `run` empty squares: its digit, or nothing.
pub open spec fn run_text(run: nat) -> Seq<char> {
    if run > 0 {
        seq![digit_char(run as int)]
    } else {
        Seq::empty()
    }
}

/// The text of rank `rank` from file `file` on, after `run` empty squares.
pub open spec fn row_text(b: Board, rank: int, file: int, run: nat) -> Seq<char>
    decreases 9 - file,
{
    if file >= 9 {
        run_text(run)
    } else {
        match b.occupant(square_at(rank, file)) {
            None => row_text(b, rank, file + 1, run + 1),
            Some((s, p)) => run_text(run) + token(p, s) + row_text(b, rank, file + 1, 0),
        }
    }
}

/// The ranks from `rank` down to 0, separated by '/'.
pub open spec fn ranks_text(b: Board, rank: int) -> Seq<char>
    decreases rank,
{
    if rank <= 0 {
        row_text(b, 0, 0, 0)
    } else {
        row_text(b, rank, 0, 0) + seq!['/'] + ranks_text(b, rank - 1)
    }
}

/// Number of empty squares on rank `rank` from file `file` up to the next
/// occupied square or the edge.
pub open spec fn empties(b: Board, rank: int, file: int) -> nat
    decreases 9 - file,
{
    if file >= 9 || b.occupant(square_at(rank, file)) is Some {
        0
    } else {
        1 + empties(b, rank, file + 1)
    }
}

/// What follows rank `rank` in the board field.
pub open spec fn rest_text(b: Board, rank: int) -> Seq<char> {
    if rank > 0 {
        seq!['/'] + ranks_text(b, rank - 1)
    } else {
        Seq::empty()
    }
}

/// A run of empty squares is written as one digit where it ends.
pub proof fn lemma_skip_run(b: Board, rank: int, file: int, run: nat)
    requires
        0 <= file <= 9,
    ensures
        file + empties(b, rank, file) <= 9,
        row_text(b, rank, file, run) == row_text(
            b,
            rank,
            file + empties(b, rank, file),
            run + empties(b, rank, file),
        ),
        forall|f: int|
            file <= f < file + empties(b, rank, file) ==> #[trigger] b.occupant(square_at(rank, f)) is None,
        file + empties(b, rank, file) < 9 ==> b.occupant(square_at(rank, file + empties(b, rank, file))) is Some,
    decreases 9 - file,
{
    if file < 9 && b.occupant(square_at(rank, file)) is None {
        lemma_skip_run(b, rank, file + 1, run + 1);
    }
}

/// The start of the text of a rank from file `file` on: one digit for a run of
/// empty squares, or the next piece's text.
pub proof fn lemma_row_start(b: Board, rank: int, file: int)
    requires
        0 <= file < 9,
    ensures
        b.occupant(square_at(rank, file)) is None ==> {
            let e = empties(b, rank, file);
            &&& 1 <= e <= 9 - file
            &&& row_text(b, rank, file, 0) == seq![digit_char(e as int)] + row_text(b, rank, file + e, 0)
            &&& forall|f: int| file <= f < file + e ==> #[trigger] b.occupant(square_at(rank, f)) is None
        },
        b.occupant(square_at(rank, file)) matches Some((s, p)) ==> row_text(b, rank, file, 0) == token(p, s)
            + row_text(b, rank, file + 1, 0),
{
    lemma_skip_run(b, rank, file, 0);
    let e = empties(b, rank, file);
    if b.occupant(square_at(rank, file)) is None {
        assert(e >= 1);
        if file + e < 9 {
            let (s, p) = b.occupant(square_at(rank, file + e))->0;
            assert(row_text(b, rank, file + e, e) == run_text(e) + token(p, s) + row_text(b, rank, file + e + 1, 0));
            assert(row_text(b, rank, file + e, 0) == run_text(0) + token(p, s) + row_text(b, rank, file + e + 1, 0));
            assert(run_text(0) =~= Seq::<char>::empty());
            assert(run_text(0) + token(p, s) =~= token(p, s));
        } else {
            assert(row_text(b, rank, file + e, 0) == run_text(0));
            assert(run_text(0) =~= Seq::<char>::empty());
        }
    } else {
        assert(run_text(0) =~= Seq::<char>::empty());
        let (s, p) = b.occupant(square_at(rank, file))->0;
        assert(run_text(0) + token(p, s) =~= token(p, s));
    }
}

/// The first `k` reserve kinds of `h`, each letter repeated by its count.
pub open spec fn hand_prefix(h: Hand, side: Side, k: int) -> Seq<char>
    decreases k,
{
    if k <= 0 {
        Seq::empty()
    } else {
        hand_prefix(h, side, k - 1) + Seq::new(
            h.pieces@[k - 1] as nat,
            |i: int| letter(piece_at_index(k - 1)->0, side),
        )
    }
}

pub open spec fn hand_text(h: Hand, side: Side) -> Seq<char> {
    hand_prefix(h, side, 7)
}

/// The whole record of a position.
pub open spec fn record(b: Board) -> Seq<char> {
    let stm = if b.to_move() == Side::Sente {
        seq!['b']
    } else {
        seq!['w']
    };
    let sente = b.hand_of(Side::Sente);
    let gote = b.hand_of(Side::Gote);
    let hands = if sente.empty_spec() && gote.empty_spec() {
        seq!['-']
    } else {
        hand_text(sente, Side::Sente) + hand_text(gote, Side::Gote)
    };
    ranks_text(b, 8) + seq![' '] + stm + seq![' '] + hands + seq![' '] + decimal(b.move_count() as nat)
}

/// The two positions agree on every square, both reserves, the side to move
/// and the move counter.
pub open spec fn same_position(a: Board, b: Board) -> bool {
    &&& forall|sq: int| 0 <= sq < 81 ==> #[trigger] a.occupant(sq) == b.occupant(sq)
    &&& a.hand_of(Side::Sente).pieces@ == b.hand_of(Side::Sente).pieces@
    &&& a.hand_of(Side::Gote).pieces@ == b.hand_of(Side::Gote).pieces@
    &&& a.to_move() == b.to_move()
    &&& a.move_count() == b.move_count()
}

/// A character of a board field: a run digit, '/', '+' or a piece letter.
pub open spec fn board_char(c: char) -> bool {
    ('1' <= c <= '9') || c == '/' || c == '+' || piece_of_letter(c) is Some
}

/// The value of a string of decimal digits.
pub open spec fn digits_value(s: Seq<char>) -> int
    decreases s.len(),
{
    if s.len() == 0 {
        0
    } else {
        digits_value(s.drop_last()) * 10 + (s.last() as int - '0' as int)
    }
}

proof fn lemma_digit_char(d: int)
    requires
        0 <= d < 10,
    ensures
        digit_char(d) as int - '0' as int == d,
        '0' <= digit_char(d) <= '9',
        d > 0 ==> '1' <= digit_char(d),
{
    if d == 0 {
    } else if d == 1 {
    } else if d == 2 {
    } else if d == 3 {
    } else if d == 4 {
    } else if d == 5 {
    } else if d == 6 {
    } else if d == 7 {
    } else if d == 8 {
    } else {
    }
}

proof fn lemma_row_chars(b: Board, rank: int, file: int, run: nat)
    requires
        run <= file <= 9,
    ensures
        forall|k: int| 0 <= k < row_text(b, rank, file, run).len() ==> board_char(#[trigger] row_text(b, rank, file, run)[k]),
    decreases 9 - file,
{
    if run > 0 {
        lemma_digit_char(run as int);
    }
    if file >= 9 {
        let t = row_text(b, rank, file, run);
        assert(t == run_text(run));
        assert forall|k: int| 0 <= k < t.len() implies board_char(#[trigger] t[k]) by {
            assert(t[k] == digit_char(run as int));
        }
    } else {
        match b.occupant(square_at(rank, file)) {
            None => {
                lemma_row_chars(b, rank, file + 1, run + 1);
                assert(row_text(b, rank, file, run) == row_text(b, rank, file + 1, run + 1));
            },
            Some((s, p)) => {
                lemma_row_chars(b, rank, file + 1, 0);
                let a = run_text(run) + token(p, s);
                let r = row_text(b, rank, file + 1, 0);
                assert(row_text(b, rank, file, run) == a + r);
                assert forall|k: int| 0 <= k < a.len() implies board_char(#[trigger] a[k]) by {}
                assert forall|k: int| 0 <= k < (a + r).len() implies board_char(#[trigger] (a + r)[k]) by {
                    if k < a.len() {
                        assert((a + r)[k] == a[k]);
                    } else {
                        assert((a + r)[k] == r[k - a.len()]);
                    }
                }
            },
        }
    }
}

proof fn lemma_ranks_chars(b: Board, rank: int)
    ensures
        ranks_text(b, rank).len() > 0,
        forall|k: int| 0 <= k < ranks_text(b, rank).len() ==> board_char(#[trigger] ranks_text(b, rank)[k]),
    decreases rank,
{
    let r0 = if rank > 0 {
        rank
    } else {
        0
    };
    lemma_row_chars(b, r0, 0, 0);
    lemma_row_start(b, r0, 0);
    Board::lemma_token_start(b, r0, 0);
    if rank > 0 {
        lemma_ranks_chars(b, rank - 1);
        let a = row_text(b, rank, 0, 0) + seq!['/'];
        let t = ranks_text(b, rank - 1);
        assert forall|k: int| 0 <= k < a.len() implies board_char(#[trigger] a[k]) by {
            if k < row_text(b, rank, 0, 0).len() {
                assert(a[k] == row_text(b, rank, 0, 0)[k]);
            }
        }
        assert forall|k: int| 0 <= k < (a + t).len() implies board_char(#[trigger] (a + t)[k]) by {
            if k < a.len() {
                assert((a + t)[k] == a[k]);
            } else {
                assert((a + t)[k] == t[k - a.len()]);
            }
        }
    }
}

/// Every character of a reserve text is the letter of a base kind of `side`.
proof fn lemma_hand_chars(h: Hand, side: Side, k: int)
    requires
        0 <= k <= 7,
    ensures
        forall|i: int|
            0 <= i < hand_prefix(h, side, k).len() ==> exists|j: int|
                0 <= j < 7 && #[trigger] hand_prefix(h, side, k)[i] == letter(piece_at_index(j)->0, side),
    decreases k,
{
    if k > 0 {
        lemma_hand_chars(h, side, k - 1);
        let a = hand_prefix(h, side, k - 1);
        let r = Seq::new(h.pieces@[k - 1] as nat, |i: int| letter(piece_at_index(k - 1)->0, side));
        assert forall|i: int| 0 <= i < (a + r).len() implies exists|j: int|
            0 <= j < 7 && #[trigger] (a + r)[i] == letter(piece_at_index(j)->0, side) by {
            if i >= a.len() {
                assert((a + r)[i] == letter(piece_at_index(k - 1)->0, side));
            } else {
                assert((a + r)[i] == a[i]);
            }
        }
    }
}

proof fn lemma_occurrences_concat(a: Seq<char>, b: Seq<char>, c: char)
    ensures
        occurrences(a + b, c) == occurrences(a, c) + occurrences(b, c),
    decreases b.len(),
{
    if b.len() == 0 {
        assert(a + b =~= a);
    } else {
        assert((a + b).drop_last() =~= a + b.drop_last());
        lemma_occurrences_concat(a, b.drop_last(), c);
    }
}

proof fn lemma_occurrences_repeat(n: nat, x: char, c: char)
    ensures
        occurrences(Seq::new(n, |i: int| x), c) == if x == c {
            n
        } else {
            0
        },
    decreases n,
{
    if n > 0 {
        assert(Seq::new(n, |i: int| x).drop_last() =~= Seq::new((n - 1) as nat, |i: int| x));
        lemma_occurrences_repeat((n - 1) as nat, x, c);
    }
}

/// The letters of distinct base kinds, or of different sides, differ.
proof fn lemma_letters_distinct(j1: int, s1: Side, j2: int, s2: Side)
    requires
        0 <= j1 < 7,
        0 <= j2 < 7,
    ensures
        (letter(piece_at_index(j1)->0, s1) == letter(piece_at_index(j2)->0, s2)) == (j1 == j2 && s1 == s2),
{
}

/// A letter of a reserve text occurs as often as the reserve counts.
proof fn lemma_hand_occurrences(h: Hand, side: Side, k: int, j: int, s2: Side)
    requires
        0 <= k <= 7,
        0 <= j < 7,
    ensures
        occurrences(hand_prefix(h, side, k), letter(piece_at_index(j)->0, s2)) == if side == s2 && j < k {
            h.pieces@[j] as nat
        } else {
            0
        },
    decreases k,
{
    if k > 0 {
        lemma_hand_occurrences(h, side, k - 1, j, s2);
        let x = letter(piece_at_index(k - 1)->0, side);
        let c = letter(piece_at_index(j)->0, s2);
        lemma_occurrences_concat(
            hand_prefix(h, side, k - 1),
            Seq::new(h.pieces@[k - 1] as nat, |i: int| x),
            c,
        );
        lemma_occurrences_repeat(h.pieces@[k - 1] as nat, x, c);
        lemma_letters_distinct(k - 1, side, j, s2);
    }
}

proof fn lemma_hand_text_empty(h: Hand, side: Side, k: int)
    requires
        0 <= k <= 7,
    ensures
        (hand_prefix(h, side, k).len() == 0) == (forall|i: int| 0 <= i < k ==> #[trigger] h.pieces@[i] == 0),
    decreases k,
{
    if k > 0 {
        lemma_hand_text_empty(h, side, k - 1);
        if hand_prefix(h, side, k).len() == 0 {
            assert forall|i: int| 0 <= i < k implies #[trigger] h.pieces@[i] == 0 by {
                if i == k - 1 {
                } else {
                    assert(hand_prefix(h, side, k - 1).len() == 0);
                }
            }
        }
    }
}

/// The record of a position depends only on what `same_position` compares.
proof fn lemma_rows_same(a: Board, b: Board, rank: int, file: int, run: nat)
    requires
        same_position(a, b),
        0 <= rank < 9,
        0 <= file,
    ensures
        row_text(a, rank, file, run) == row_text(b, rank, file, run),
    decreases 9 - file,
{
    if file < 9 {
        assert(a.occupant(square_at(rank, file)) == b.occupant(square_at(rank, file)));
        lemma_rows_same(a, b, rank, file + 1, run + 1);
        lemma_rows_same(a, b, rank, file + 1, 0);
    }
}

proof fn lemma_ranks_same(a: Board, b: Board, rank: int)
    requires
        same_position(a, b),
        rank < 9,
    ensures
        ranks_text(a, rank) == ranks_text(b, rank),
    decreases rank,
{
    if rank > 0 {
        lemma_rows_same(a, b, rank, 0, 0);
        lemma_ranks_same(a, b, rank - 1);
    } else {
        lemma_rows_same(a, b, 0, 0, 0);
    }
}

proof fn lemma_hands_same(g: Hand, h: Hand, side: Side, k: int)
    requires
        g.pieces@ == h.pieces@,
    ensures
        hand_prefix(g, side, k) == hand_prefix(h, side, k),
    decreases k,
{
    if k > 0 {
        lemma_hands_same(g, h, side, k - 1);
    }
}

/// Positions that agree on squares, reserves, side to move and counter have
/// the same record.
pub proof fn lemma_record_same(a: Board, b: Board)
    requires
        same_position(a, b),
    ensures
        record(a) == record(b),
{
    lemma_ranks_same(a, b, 8);
    lemma_hands_same(a.hand_of(Side::Sente), b.hand_of(Side::Sente), Side::Sente, 7);
    lemma_hands_same(a.hand_of(Side::Gote), b.hand_of(Side::Gote), Side::Gote, 7);
    assert(a.hand_of(Side::Sente).empty_spec() == b.hand_of(Side::Sente).empty_spec());
    assert(a.hand_of(Side::Gote).empty_spec() == b.hand_of(Side::Gote).empty_spec());
}

/// A counter up to 255 is written in digits whose every prefix reads at most
/// its value.
proof fn lemma_decimal(n: nat)
    requires
        n <= 255,
    ensures
        1 <= decimal(n).len() <= 3,
        forall|k: int| 0 <= k < decimal(n).len() ==> '0' <= #[trigger] decimal(n)[k] <= '9',
        digits_value(decimal(n)) == n,
        forall|k: int| 0 <= k <= decimal(n).len() ==> 0 <= #[trigger] digits_value(decimal(n).take(k)) <= n,
{
    let d = decimal(n);
    lemma_digit_char((n % 10) as int);
    lemma_digit_char((n / 10 % 10) as int);
    lemma_digit_char((n / 100) as int);
    if n < 10 {
        assert(d == seq![digit_char(n as int)]);
        assert(n % 10 == n);
        assert(d.take(0) =~= Seq::<char>::empty());
        assert(d.take(1) =~= d);
        assert(d.drop_last() =~= Seq::<char>::empty());
        assert(digits_value(Seq::<char>::empty()) == 0);
        assert(digits_value(d) == n);
    } else if n < 100 {
        lemma_digit_char((n / 10) as int);
        assert(decimal(n / 10) == seq![digit_char((n / 10) as int)]);
        assert(d =~= seq![digit_char((n / 10) as int), digit_char((n % 10) as int)]);
        assert(d.take(0) =~= Seq::<char>::empty());
        assert(d.take(1) =~= seq![digit_char((n / 10) as int)]);
        assert(d.take(1).drop_last() =~= Seq::<char>::empty());
        assert(d.take(2) =~= d);
        assert(d.drop_last() =~= seq![digit_char((n / 10) as int)]);
        assert(digits_value(Seq::<char>::empty()) == 0);
        assert(digits_value(d.take(1)) == n / 10);
        assert(digits_value(d) == (n / 10) * 10 + n % 10);
    } else {
        assert(decimal(n / 100) == seq![digit_char((n / 100) as int)]);
        assert(decimal(n / 10) == decimal(n / 10 / 10) + seq![digit_char((n / 10 % 10) as int)]);
        assert(n / 10 / 10 == n / 100);
        let x = digit_char((n / 100) as int);
        let y = digit_char((n / 10 % 10) as int);
        let z = digit_char((n % 10) as int);
        assert(d =~= seq![x, y, z]);
        assert(d.take(0) =~= Seq::<char>::empty());
        assert(d.take(1) =~= seq![x]);
        assert(d.take(1).drop_last() =~= Seq::<char>::empty());
        assert(d.take(2) =~= seq![x, y]);
        assert(d.take(2).drop_last() =~= seq![x]);
        assert(d.take(3) =~= d);
        assert(d.drop_last() =~= seq![x, y]);
        assert(digits_value(Seq::<char>::empty()) == 0);
        assert(digits_value(d.take(1)) == n / 100);
        assert(digits_value(d.take(2)) == (n / 100) * 10 + n / 10 % 10);
        assert(digits_value(d) == ((n / 100) * 10 + n / 10 % 10) * 10 + n % 10);
    }
}

impl Hand {
    /// The reserve as text: each kind's letter for `side`, repeated by its count.
    pub fn to_sfen(&self, side: Side) -> (r: String)
        ensures
            r@ == hand_text(*self, side),
    {
        let mut sfen = String::new();
        let mut idx: u8 = 0;
        while idx < 7
            invariant
                idx <= 7,
                sfen@ == hand_prefix(*self, side, idx as int),
            decreases 7 - idx,
        {
            let piece = Piece::from_index(idx).unwrap();
            let count = self.pieces[idx as usize];
            let piece_str = letter_text(piece, side);
            let ghost base = sfen@;
            let mut j: u8 = 0;
            while j < count
                invariant
                    j <= count,
                    piece_str@ == seq![letter(piece, side)],
                    sfen@ == base + Seq::new(j as nat, |i: int| letter(piece, side)),
                decreases count - j,
            {
                sfen.append(piece_str);
                assert(base + Seq::new((j + 1) as nat, |i: int| letter(piece, side)) =~= base + Seq::new(
                    j as nat,
                    |i: int| letter(piece, side),
                ) + seq![letter(piece, side)]);
                j += 1;
            }
            idx += 1;
        }
        sfen
    }
}

impl Board {
    /// The record of this position.
    pub fn to_sfen(&self) -> (r: String)
        requires
            self.wf(),
        ensures
            r@ == record(*self),
    {
        let mut sfen = String::new();
        let mut rank: u8 = 9;
        while rank > 0
            invariant
                rank <= 9,
                self.wf(),
                rank < 9 ==> sfen@ + (if rank > 0 { seq!['/'] + ranks_text(*self, rank - 1) } else { Seq::empty() }) == ranks_text(*self, 8),
                rank == 9 ==> sfen@ == Seq::<char>::empty(),
            decreases rank,
        {
            rank -= 1;
            let ghost before = sfen@;
            if rank < 8 {
                sfen.append(literal('/'));
            }
            let ghost row_start = sfen@;
            let mut empty_squares: u8 = 0;
            let mut file: u8 = 0;
            while file < 9
                invariant
                    rank < 9,
                    file <= 9,
                    empty_squares <= file,
                    self.wf(),
                    sfen@ + row_text(*self, rank as int, file as int, empty_squares as nat) == row_start + row_text(*self, rank as int, 0, 0),
                decreases 9 - file,
            {
                let sq = rank * 9 + file;
                match self.piece_at(sq) {
                    Some(piece) => {
                        let ghost prev = sfen@;
                        if empty_squares > 0 {
                            sfen.append(digit_text(empty_squares));
                        }
                        empty_squares = 0;
                        let side = self.side_at(sq).unwrap();
                        sfen.append(piece.to_str(side).as_str());
                    },
                    None => {
                        empty_squares += 1;
                    },
                }
                file += 1;
            }
            if empty_squares > 0 {
                sfen.append(digit_text(empty_squares));
            }
        }
        sfen.append(literal(' '));
        if self.stm().is_sente() {
            sfen.append(literal('b'));
        } else {
            sfen.append(literal('w'));
        }
        sfen.append(literal(' '));
        let sente_hand = self.hand(Side::Sente);
        let gote_hand = self.hand(Side::Gote);
        if sente_hand.is_empty() && gote_hand.is_empty() {
            sfen.append(literal('-'));
        } else {
            sfen.append(sente_hand.to_sfen(Side::Sente).as_str());
            sfen.append(gote_hand.to_sfen(Side::Gote).as_str());
        }
        sfen.append(literal(' '));
        append_decimal(&mut sfen, self.moves());
        sfen
    }
}

/// The kind named by a letter of either case.
fn piece_from_letter(c: char) -> (r: Option<Piece>)
    ensures
        r == piece_of_letter(c),
{
    match c {
        'P' | 'p' => Some(Piece::Pawn),
        'L' | 'l' => Some(Piece::Lance),
        'N' | 'n' => Some(Piece::Knight),
        'S' | 's' => Some(Piece::Silver),
        'G' | 'g' => Some(Piece::Gold),
        'B' | 'b' => Some(Piece::Bishop),
        'R' | 'r' => Some(Piece::Rook),
        'K' | 'k' => Some(Piece::King),
        _ => None,
    }
}

fn upper(c: char) -> (r: bool)
    ensures
        r == is_upper(c),
{
    'A' <= c && c <= 'Z'
}

/// The value of a non-zero decimal digit.
fn run_length(c: char) -> (r: Option<u8>)
    ensures
        r is Some <==> ('1' <= c <= '9'),
        r matches Some(n) ==> n == c as int - '0' as int && 1 <= n <= 9,
{
    if '1' <= c && c <= '9' {
        Some((c as u32 - '0' as u32) as u8)
    } else {
        None
    }
}

/// Number of times `c` occurs in `s`.
pub open spec fn occurrences(s: Seq<char>, c: char) -> nat
    decreases s.len(),
{
    if s.len() == 0 {
        0
    } else {
        occurrences(s.drop_last(), c) + if s.last() == c {
            1nat
        } else {
            0nat
        }
    }
}

pub open spec fn capped(n: nat) -> nat {
    if n > 255 {
        255
    } else {
        n
    }
}

impl Piece {
    /// The kind named by a piece text of either case ("p", "+R").
    pub fn from_str(s: &str) -> (r: Option<Piece>)
        ensures
            r == piece_of_text(s@),
    {
        let cs = chars_of(s);
        if cs.len() == 1 {
            piece_from_letter(cs[0])
        } else if cs.len() == 2 && cs[0] == '+' {
            match piece_from_letter(cs[1]) {
                Some(b) => b.to_promo_piece(),
                None => None,
            }
        } else {
            None
        }
    }
}

impl Hand {
    /// The reserve of `side` read from letters: each letter of `side`'s case that
    /// names a base kind adds one (up to 255); other characters are skipped.
    pub fn from_chars(chars: &Vec<char>, side: Side) -> (r: Hand)
        ensures
            forall|k: int|
                0 <= k < 7 ==> #[trigger] r.pieces@[k] == capped(
                    occurrences(chars@, letter(piece_at_index(k)->0, side)),
                ),
    {
        let mut hand = Hand::new();
        let mut i: usize = 0;
        while i < chars.len()
            invariant
                i <= chars@.len(),
                forall|k: int|
                    0 <= k < 7 ==> #[trigger] hand.pieces@[k] == capped(
                        occurrences(chars@.take(i as int), letter(piece_at_index(k)->0, side)),
                    ),
            decreases chars@.len() - i,
        {
            let c = chars[i];
            let ours = match side {
                Side::Sente => upper(c),
                Side::Gote => !upper(c),
            };
            let ghost before = hand;
            let mut hit: usize = 7;
            if ours {
                match piece_from_letter(c) {
                    Some(p) => {
                        if p != Piece::King {
                            hit = p.idx();
                            if hand.pieces[hit] < 255 {
                                hand.pieces[hit] = hand.pieces[hit] + 1;
                            }
                        }
                    },
                    None => {},
                }
            }
            proof {
                assert(chars@.take(i + 1).drop_last() =~= chars@.take(i as int));
                assert(chars@.take(i + 1).last() == c);
                assert forall|k: int| 0 <= k < 7 implies #[trigger] hand.pieces@[k] == capped(
                    occurrences(chars@.take(i + 1), letter(piece_at_index(k)->0, side)),
                ) by {
                    assert(before.pieces@[k] == capped(
                        occurrences(chars@.take(i as int), letter(piece_at_index(k)->0, side)),
                    ));
                    if k == hit {
                        assert(letter(piece_at_index(k)->0, side) == c);
                    } else {
                        assert(letter(piece_at_index(k)->0, side) != c);
                    }
                }
            }
            i += 1;
        }
        assert(chars@.take(i as int) =~= chars@);
        hand
    }
}

pub open spec fn is_space(c: char) -> bool {
    c == ' ' || c == '\t' || c == '\n' || c == '\r'
}

fn space(c: char) -> (r: bool)
    ensures
        r == is_space(c),
{
    c == ' ' || c == '\t' || c == '\n' || c == '\r'
}

/// A board field read from index `i` on, with `ranks` separators and `width`
/// files of the current rank behind: nine ranks of exactly nine files each,
/// separated by '/'; a digit from 1 to 9 is that many empty files, a piece
/// letter one file, and '+' must be followed by the letter of a kind that has a
/// promoted form.
pub open spec fn board_scan(t: Seq<char>, i: int, ranks: int, width: int) -> bool
    decreases t.len() - i,
{
    if i < 0 || i >= t.len() {
        ranks == 8 && width == 9
    } else if t[i] == '/' {
        width == 9 && ranks < 8 && board_scan(t, i + 1, ranks + 1, 0)
    } else if '1' <= t[i] <= '9' {
        width + (t[i] as int - '0' as int) <= 9 && board_scan(t, i + 1, ranks, width + (t[i] as int - '0' as int))
    } else if t[i] == '+' {
        &&& i + 1 < t.len()
        &&& piece_of_letter(t[i + 1]) is Some
        &&& promoted(piece_of_letter(t[i + 1])->0) is Some
        &&& width < 9
        &&& board_scan(t, i + 2, ranks, width + 1)
    } else {
        piece_of_letter(t[i]) is Some && width < 9 && board_scan(t, i + 1, ranks, width + 1)
    }
}

/// The side whose case a letter has: upper case for the first side.
pub open spec fn side_of_case(c: char) -> Side {
    if is_upper(c) {
        Side::Sente
    } else {
        Side::Gote
    }
}

/// What a board field read from index `i` on (with `ranks` separators and
/// `width` files of the current rank behind) puts on square `target`.
pub open spec fn square_read(t: Seq<char>, i: int, ranks: int, width: int, target: int) -> Option<(Side, Piece)>
    decreases t.len() - i,
{
    if i < 0 || i >= t.len() {
        None
    } else if t[i] == '/' {
        square_read(t, i + 1, ranks + 1, 0, target)
    } else if '1' <= t[i] <= '9' {
        square_read(t, i + 1, ranks, width + (t[i] as int - '0' as int), target)
    } else if t[i] == '+' {
        if i + 1 >= t.len() {
            None
        } else if 0 <= width < 9 && square_at(8 - ranks, width) == target {
            match piece_of_letter(t[i + 1]) {
                Some(b) => match promoted(b) {
                    Some(p) => Some((side_of_case(t[i + 1]), p)),
                    None => None,
                },
                None => None,
            }
        } else {
            square_read(t, i + 2, ranks, width + 1, target)
        }
    } else if 0 <= width < 9 && square_at(8 - ranks, width) == target {
        match piece_of_letter(t[i]) {
            Some(p) => Some((side_of_case(t[i]), p)),
            None => None,
        }
    } else {
        square_read(t, i + 1, ranks, width + 1, target)
    }
}

/// Reading on from a square never puts anything on a square already passed.
proof fn lemma_read_after(t: Seq<char>, i: int, ranks: int, width: int, target: int)
    requires
        0 <= ranks,
        0 <= width,
        0 <= target < 81,
        Board::read_before(target, 8 - ranks, width),
    ensures
        square_read(t, i, ranks, width, target) is None,
    decreases t.len() - i,
{
    if 0 <= i < t.len() {
        if 0 <= width < 9 && 8 - ranks >= 0 {
            lemma_coords_text(8 - ranks, width);
        }
        if t[i] == '/' {
            lemma_read_after(t, i + 1, ranks + 1, 0, target);
        } else if '1' <= t[i] <= '9' {
            lemma_read_after(t, i + 1, ranks, width + (t[i] as int - '0' as int), target);
        } else if t[i] == '+' {
            if i + 1 < t.len() {
                lemma_read_after(t, i + 2, ranks, width + 1, target);
            }
        } else {
            lemma_read_after(t, i + 1, ranks, width + 1, target);
        }
    }
}

proof fn lemma_square(sq: int)
    requires
        0 <= sq < 81,
    ensures
        square_at(rank_of(sq), file_of(sq)) == sq,
        0 <= rank_of(sq) < 9,
        0 <= file_of(sq) < 9,
{
}

proof fn lemma_coords_text(r: int, f: int)
    requires
        0 <= r < 9,
        0 <= f < 9,
    ensures
        rank_of(square_at(r, f)) == r,
        file_of(square_at(r, f)) == f,
{
}

/// The first index from `i` on that is not white space (or the end).
pub open spec fn field_start(s: Seq<char>, i: int) -> int
    decreases s.len() - i,
{
    if i < 0 || i >= s.len() {
        s.len() as int
    } else if is_space(s[i]) {
        field_start(s, i + 1)
    } else {
        i
    }
}

/// The first index from `i` on that is white space (or the end).
pub open spec fn field_stop(s: Seq<char>, i: int) -> int
    decreases s.len() - i,
{
    if i < 0 || i >= s.len() {
        s.len() as int
    } else if !is_space(s[i]) {
        field_stop(s, i + 1)
    } else {
        i
    }
}

/// Where field `k` (counting from 0) starts and ends.
pub open spec fn field_bounds(s: Seq<char>, k: nat) -> (int, int)
    decreases k,
{
    let from = if k == 0 {
        0
    } else {
        field_bounds(s, (k - 1) as nat).1
    };
    let start = field_start(s, from);
    (start, field_stop(s, start))
}

/// Field `k` (counting from 0) of `s`.
pub open spec fn field(s: Seq<char>, k: nat) -> Seq<char> {
    s.subrange(field_bounds(s, k).0, field_bounds(s, k).1)
}

/// A reserve field: '-', or letters of base kinds with no letter more than 255
/// times.
pub open spec fn hands_ok(t: Seq<char>) -> bool {
    t == seq!['-'] || ((forall|k: int|
        0 <= k < t.len() ==> #[trigger] piece_of_letter(t[k]) is Some && piece_of_letter(t[k]) != Some(Piece::King))
        && forall|k: int, s: Side| 0 <= k < 7 ==> #[trigger] occurrences(t, letter(piece_at_index(k)->0, s)) <= 255)
}

/// A well-formed record: three or four fields; a board field of nine ranks
/// of nine files; 'b' or 'w' to move; a reserve field; and, if present, a move
/// counter.
pub open spec fn record_ok(s: Seq<char>) -> bool {
    &&& 3 <= field_count(s, 0) <= 4
    &&& board_scan(field(s, 0), 0, 0, 0)
    &&& (field(s, 1) == seq!['b'] || field(s, 1) == seq!['w'])
    &&& hands_ok(field(s, 2))
    &&& (field_count(s, 0) == 4 ==> counter_ok(field(s, 3)))
}

/// The count of base kind `k` that the reserve field `t` gives `side`.
pub open spec fn hand_count_read(t: Seq<char>, k: int, side: Side) -> int {
    if t == seq!['-'] {
        0
    } else {
        occurrences(t, letter(piece_at_index(k)->0, side)) as int
    }
}

/// `b` is what the fields of the well-formed record `s` say: the squares of
/// the board field, the side to move, the reserve counts and the counter (0 when
/// absent).
pub open spec fn read_as(b: Board, s: Seq<char>) -> bool {
    &&& forall|sq: int| 0 <= sq < 81 ==> #[trigger] b.occupant(sq) == square_read(field(s, 0), 0, 0, 0, sq)
    &&& b.to_move() == if field(s, 1) == seq!['b'] {
        Side::Sente
    } else {
        Side::Gote
    }
    &&& forall|k: int|
        0 <= k < 7 ==> #[trigger] b.hand_of(Side::Sente).pieces@[k] == hand_count_read(field(s, 2), k, Side::Sente)
            && b.hand_of(Side::Gote).pieces@[k] == hand_count_read(field(s, 2), k, Side::Gote)
    &&& b.move_count() == if field_count(s, 0) == 4 {
        digits_value(field(s, 3))
    } else {
        0
    }
}

/// A counter field: decimal digits worth at most 255.
pub open spec fn counter_ok(t: Seq<char>) -> bool {
    &&& forall|k: int| 0 <= k < t.len() ==> '0' <= #[trigger] t[k] <= '9'
    &&& digits_value(t) <= 255
}

/// Number of fields (maximal runs without white space) of `s` from index `i` on,
/// each counted at its last character.
pub open spec fn field_count(s: Seq<char>, i: int) -> nat
    decreases s.len() - i,
{
    if i < 0 || i >= s.len() {
        0
    } else if is_space(s[i]) || (i + 1 < s.len() && !is_space(s[i + 1])) {
        field_count(s, i + 1)
    } else {
        1 + field_count(s, i + 1)
    }
}

proof fn lemma_count_spaces(s: Seq<char>, from: int, to: int)
    requires
        0 <= from <= to <= s.len(),
        forall|j: int| from <= j < to ==> is_space(#[trigger] s[j]),
    ensures
        field_count(s, from) == field_count(s, to),
    decreases to - from,
{
    if from < to {
        lemma_count_spaces(s, from + 1, to);
    }
}

proof fn lemma_count_field(s: Seq<char>, from: int, to: int)
    requires
        0 <= from < to <= s.len(),
        forall|j: int| from <= j < to ==> !is_space(#[trigger] s[j]),
        to < s.len() ==> is_space(s[to]),
    ensures
        field_count(s, from) == 1 + field_count(s, to),
    decreases to - from,
{
    if from + 1 < to {
        lemma_count_field(s, from + 1, to);
    }
}

/// The next field of `cs` from `from` on: white space is skipped, then the
/// field runs up to the next white space or the end (an empty range at the end).
fn next_field(cs: &Vec<char>, from: usize) -> (r: (usize, usize))
    requires
        from <= cs@.len(),
    ensures
        from <= r.0 <= r.1 <= cs@.len(),
        forall|j: int| from <= j < r.0 ==> is_space(#[trigger] cs@[j]),
        r.0 < cs@.len() ==> !is_space(cs@[r.0 as int]),
        forall|j: int| r.0 <= j < r.1 ==> !is_space(#[trigger] cs@[j]),
        r.1 < cs@.len() ==> is_space(cs@[r.1 as int]),
        (r.0 == r.1) == (r.0 == cs@.len()),
        field_count(cs@, from as int) == if r.0 < r.1 {
            1 + field_count(cs@, r.1 as int)
        } else {
            0
        },
        r.0 == field_start(cs@, from as int),
        r.1 == field_stop(cs@, r.0 as int),
{
    let mut i = from;
    while i < cs.len() && space(cs[i])
        invariant
            from <= i <= cs@.len(),
            forall|j: int| from <= j < i ==> is_space(#[trigger] cs@[j]),
            field_start(cs@, from as int) == field_start(cs@, i as int),
        decreases cs@.len() - i,
    {
        i += 1;
    }
    let start = i;
    while i < cs.len() && !space(cs[i])
        invariant
            start <= i <= cs@.len(),
            forall|j: int| start <= j < i ==> !is_space(#[trigger] cs@[j]),
            field_stop(cs@, start as int) == field_stop(cs@, i as int),
        decreases cs@.len() - i,
    {
        i += 1;
    }
    proof {
        lemma_count_spaces(cs@, from as int, start as int);
        if start < i {
            lemma_count_field(cs@, start as int, i as int);
        }
    }
    (start, i)
}

/// The reserve field for the reserves `sente` and `gote`.
pub open spec fn hands_pair_text(sente: Hand, gote: Hand) -> Seq<char> {
    if sente.empty_spec() && gote.empty_spec() {
        seq!['-']
    } else {
        hand_text(sente, Side::Sente) + hand_text(gote, Side::Gote)
    }
}

/// The reserve field of a position's record.
pub open spec fn hands_text(b: Board) -> Seq<char> {
    hands_pair_text(b.hand_of(Side::Sente), b.hand_of(Side::Gote))
}

pub open spec fn stm_text(b: Board) -> Seq<char> {
    if b.to_move() == Side::Sente {
        seq!['b']
    } else {
        seq!['w']
    }
}

/// The record is its four fields joined by single spaces, none of them empty
/// or holding white space.
proof fn lemma_record_layout(p: Board)
    requires
        p.move_count() <= 255,
    ensures
        record(p) == ranks_text(p, 8) + seq![' '] + stm_text(p) + seq![' '] + hands_text(p) + seq![' ']
            + decimal(p.move_count() as nat),
        ranks_text(p, 8).len() > 0,
        hands_text(p).len() > 0,
        forall|k: int| 0 <= k < ranks_text(p, 8).len() ==> board_char(#[trigger] ranks_text(p, 8)[k]),
        forall|k: int| 0 <= k < hands_text(p).len() ==> !is_space(#[trigger] hands_text(p)[k]),
{
    lemma_ranks_chars(p, 8);
    lemma_decimal(p.move_count() as nat);
    let sente = p.hand_of(Side::Sente);
    let gote = p.hand_of(Side::Gote);
    lemma_hand_chars(sente, Side::Sente, 7);
    lemma_hand_chars(gote, Side::Gote, 7);
    lemma_hand_text_empty(sente, Side::Sente, 7);
    lemma_hand_text_empty(gote, Side::Gote, 7);
    let h = hands_text(p);
    if !(sente.empty_spec() && gote.empty_spec()) {
        let a = hand_text(sente, Side::Sente);
        let b = hand_text(gote, Side::Gote);
        assert forall|k: int| 0 <= k < h.len() implies !is_space(#[trigger] h[k]) by {
            if k < a.len() {
                assert(h[k] == a[k]);
                let j = choose|j: int| 0 <= j < 7 && a[k] == letter(piece_at_index(j)->0, Side::Sente);
            } else {
                assert(h[k] == b[k - a.len()]);
                let j = choose|j: int| 0 <= j < 7 && b[k - a.len()] == letter(piece_at_index(j)->0, Side::Gote);
            }
        }
    }
}

/// Where each field of a record stands.
proof fn lemma_record_parts(p: Board)
    ensures
        ({
            let t = record(p);
            let r = ranks_text(p, 8);
            let h = hands_text(p);
            let d = decimal(p.move_count() as nat);
            let n = r.len() as int;
            let m = h.len() as int;
            &&& n > 0
            &&& m > 0
            &&& 1 <= d.len() <= 3
            &&& t.len() == n + 4 + m + d.len()
            &&& t.subrange(0, n) == r
            &&& t[n] == ' '
            &&& t[n + 1] == stm_text(p)[0]
            &&& t[n + 2] == ' '
            &&& t.subrange(n + 3, n + 3 + m) == h
            &&& t[n + 3 + m] == ' '
            &&& t.subrange(n + 4 + m, t.len() as int) == d
            &&& forall|k: int| 0 <= k < n ==> !is_space(#[trigger] r[k]) && board_char(r[k])
            &&& forall|k: int| 0 <= k < m ==> !is_space(#[trigger] h[k])
            &&& forall|k: int| 0 <= k < d.len() ==> '0' <= #[trigger] d[k] <= '9'
            &&& (p.hand_of(Side::Sente).empty_spec() && p.hand_of(Side::Gote).empty_spec()) ==> h == seq!['-']
            &&& !(p.hand_of(Side::Sente).empty_spec() && p.hand_of(Side::Gote).empty_spec()) ==> forall|k: int|
                0 <= k < m ==> #[trigger] piece_of_letter(h[k]) is Some && piece_of_letter(h[k]) != Some(
                    Piece::King,
                )
        }),
{
    lemma_record_layout(p);
    let sente = p.hand_of(Side::Sente);
    let gote = p.hand_of(Side::Gote);
    lemma_hand_chars(sente, Side::Sente, 7);
    lemma_hand_chars(gote, Side::Gote, 7);
    if !(sente.empty_spec() && gote.empty_spec()) {
        let a = hand_text(sente, Side::Sente);
        let b = hand_text(gote, Side::Gote);
        let h = hands_text(p);
        assert forall|k: int| 0 <= k < h.len() implies #[trigger] piece_of_letter(h[k]) is Some && piece_of_letter(h[k])
            != Some(Piece::King) by {
            if k < a.len() {
                assert(h[k] == a[k]);
                let j = choose|j: int| 0 <= j < 7 && a[k] == letter(piece_at_index(j)->0, Side::Sente);
            } else {
                assert(h[k] == b[k - a.len()]);
                let j = choose|j: int| 0 <= j < 7 && b[k - a.len()] == letter(piece_at_index(j)->0, Side::Gote);
            }
        }
    }
    lemma_decimal(p.move_count() as nat);
    let t = record(p);
    let r = ranks_text(p, 8);
    let h = hands_text(p);
    let d = decimal(p.move_count() as nat);
    let n = r.len() as int;
    let m = h.len() as int;
    let st = stm_text(p);
    assert(st.len() == 1);
    assert(t =~= r + seq![' '] + st + seq![' '] + h + seq![' '] + d);
    assert(t.subrange(0, n) =~= r);
    assert(t.subrange(n + 3, n + 3 + m) =~= h);
    assert(t.subrange(n + 4 + m, t.len() as int) =~= d);
    assert forall|k: int| 0 <= k < n implies !is_space(#[trigger] r[k]) && board_char(r[k]) by {
        assert(board_char(r[k]));
    }
}

/// A field found by `next_field` is the one the text lays out.
proof fn lemma_field_unique(t: Seq<char>, from: int, start: int, end: int, r0: int, r1: int)
    requires
        0 <= from <= start < end <= t.len(),
        forall|j: int| from <= j < start ==> is_space(#[trigger] t[j]),
        forall|j: int| start <= j < end ==> !is_space(#[trigger] t[j]),
        end < t.len() ==> is_space(t[end]),
        from <= r0 <= r1 <= t.len(),
        forall|j: int| from <= j < r0 ==> is_space(#[trigger] t[j]),
        r0 < t.len() ==> !is_space(t[r0]),
        forall|j: int| r0 <= j < r1 ==> !is_space(#[trigger] t[j]),
        r1 < t.len() ==> is_space(t[r1]),
    ensures
        r0 == start,
        r1 == end,
{
    if r0 < start {
        assert(is_space(t[r0]));
    }
    if r0 > start {
        assert(is_space(t[start]));
    }
    if r1 < end {
        assert(!is_space(t[r1]));
    }
    if r1 > end {
        assert(!is_space(t[end]));
    }
}

/// Number of times `c` occurs in `chars`.
fn count_char(chars: &Vec<char>, c: char) -> (r: usize)
    ensures
        r == occurrences(chars@, c),
{
    let mut n: usize = 0;
    let mut i: usize = 0;
    while i < chars.len()
        invariant
            i <= chars@.len(),
            n == occurrences(chars@.take(i as int), c),
            n <= i,
        decreases chars@.len() - i,
    {
        assert(chars@.take(i + 1).drop_last() =~= chars@.take(i as int));
        if chars[i] == c {
            n += 1;
        }
        i += 1;
    }
    assert(chars@.take(i as int) =~= chars@);
    n
}

/// The letter of `p` for `side`, as a character.
fn letter_char(p: Piece, side: Side) -> (r: char)
    ensures
        r == letter(p, side),
{
    let up = match p.to_base_piece() {
        Piece::Pawn => 'P',
        Piece::Lance => 'L',
        Piece::Knight => 'N',
        Piece::Silver => 'S',
        Piece::Gold => 'G',
        Piece::Bishop => 'B',
        Piece::Rook => 'R',
        _ => 'K',
    };
    match side {
        Side::Sente => up,
        Side::Gote => match up {
            'P' => 'p',
            'L' => 'l',
            'N' => 'n',
            'S' => 's',
            'G' => 'g',
            'B' => 'b',
            'R' => 'r',
            _ => 'k',
        },
    }
}

/// Reads the reserve field `cs[lo..hi]`: '-' for two empty reserves, else
/// letters of base kinds, upper case for the first side.
fn read_hands(cs: &Vec<char>, lo: usize, hi: usize) -> (r: Result<(Hand, Hand), &'static str>)
    requires
        lo <= hi <= cs@.len(),
    ensures
        forall|s: Hand, g: Hand|
            #[trigger] hands_pair_text(s, g) == cs@.subrange(lo as int, hi as int) ==> r is Ok
                && r->Ok_0.0.pieces@ == s.pieces@ && r->Ok_0.1.pieces@ == g.pieces@,
        r is Ok <==> hands_ok(cs@.subrange(lo as int, hi as int)),
        r is Ok ==> forall|k: int|
            0 <= k < 7 ==> #[trigger] r->Ok_0.0.pieces@[k] == hand_count_read(cs@.subrange(lo as int, hi as int), k, Side::Sente)
                && r->Ok_0.1.pieces@[k] == hand_count_read(cs@.subrange(lo as int, hi as int), k, Side::Gote),
{
    let ghost t = cs@.subrange(lo as int, hi as int);
    if hi - lo == 1 && cs[lo] == '-' {
        let e1 = Hand::new();
        let e2 = Hand::new();
        proof {
            assert forall|s: Hand, g: Hand| #[trigger] hands_pair_text(s, g) == t implies e1.pieces@
                == s.pieces@ && e2.pieces@ == g.pieces@ by {
                assert(t[0] == '-');
                if !(s.empty_spec() && g.empty_spec()) {
                    lemma_hand_chars(s, Side::Sente, 7);
                    lemma_hand_chars(g, Side::Gote, 7);
                    let a = hand_text(s, Side::Sente);
                    if a.len() > 0 {
                        assert(t[0] == a[0]);
                        let j = choose|j: int| 0 <= j < 7 && a[0] == letter(piece_at_index(j)->0, Side::Sente);
                    } else {
                        let b = hand_text(g, Side::Gote);
                        assert(t[0] == b[0]);
                        let j = choose|j: int| 0 <= j < 7 && b[0] == letter(piece_at_index(j)->0, Side::Gote);
                    }
                }
                assert(e1.pieces@ =~= s.pieces@);
                assert(e2.pieces@ =~= g.pieces@);
            }
            assert(t =~= seq!['-']);
        }
        return Ok((e1, e2));
    }
    let mut chars: Vec<char> = Vec::new();
    let mut i: usize = lo;
    while i < hi
        invariant
            lo <= i <= hi,
            hi <= cs@.len(),
            t == cs@.subrange(lo as int, hi as int),
            chars@ == cs@.subrange(lo as int, i as int),
            !(hi - lo == 1 && cs@[lo as int] == '-'),
            forall|k: int|
                0 <= k < i - lo ==> #[trigger] piece_of_letter(t[k]) is Some && piece_of_letter(t[k]) != Some(Piece::King),
        decreases hi - i,
    {
        let c = cs[i];
        let ok = match piece_from_letter(c) {
            Some(p) => p != Piece::King,
            None => false,
        };
        if !ok {
            proof {
                assert forall|s: Hand, g: Hand| #[trigger] hands_pair_text(s, g) != t by {
                    if hands_pair_text(s, g) == t {
                        assert(c == t[i - lo]);
                        if s.empty_spec() && g.empty_spec() {
                            assert(t == seq!['-']);
                            assert(t[0] == cs@[lo as int]);
                        } else {
                            lemma_hand_chars(s, Side::Sente, 7);
                            lemma_hand_chars(g, Side::Gote, 7);
                            let a = hand_text(s, Side::Sente);
                            let b = hand_text(g, Side::Gote);
                            assert(t == a + b);
                            if i - lo < a.len() {
                                assert(t[i - lo] == a[i - lo]);
                                let j = choose|j: int| 0 <= j < 7 && a[i - lo] == letter(piece_at_index(j)->0, Side::Sente);
                            } else {
                                assert(t[i - lo] == b[i - lo - a.len()]);
                                let j = choose|j: int| 0 <= j < 7 && b[i - lo - a.len()] == letter(piece_at_index(j)->0, Side::Gote);
                            }
                        }
                    }
                }
                assert(t[i - lo] == c);
                assert(piece_of_letter(t[i - lo]) == piece_of_letter(c));
                assert(!(piece_of_letter(t[i - lo]) is Some && piece_of_letter(t[i - lo]) != Some(Piece::King)));
                if t == seq!['-'] {
                    assert(t[0] == cs@[lo as int]);
                    assert(t.len() == 1);
                }
                assert(t != seq!['-']);
            }
            return Err("SFEN has invalid hand");
        }
        chars.push(c);
        i += 1;
        proof {
            assert(chars@ =~= cs@.subrange(lo as int, i as int));
            assert(t[i - 1 - lo] == c);
        }
    }
    let mut k: u8 = 0;
    while k < 7
        invariant
            k <= 7,
            chars@ == t,
            lo <= hi <= cs@.len(),
            t == cs@.subrange(lo as int, hi as int),
            !(hi - lo == 1 && cs@[lo as int] == '-'),
            forall|j: int, s: Side| 0 <= j < k ==> #[trigger] occurrences(t, letter(piece_at_index(j)->0, s)) <= 255,
        decreases 7 - k,
    {
        let p = Piece::from_index(k).unwrap();
        let up = count_char(&chars, letter_char(p, Side::Sente));
        let down = count_char(&chars, letter_char(p, Side::Gote));
        if up > 255 || down > 255 {
            proof {
                assert forall|s: Hand, g: Hand| #[trigger] hands_pair_text(s, g) != t by {
                    if hands_pair_text(s, g) == t {
                        if s.empty_spec() && g.empty_spec() {
                            assert(t == seq!['-']);
                            assert(t[0] == cs@[lo as int]);
                        } else {
                            assert(t == hand_text(s, Side::Sente) + hand_text(g, Side::Gote));
                            lemma_occurrences_concat(hand_text(s, Side::Sente), hand_text(g, Side::Gote), letter(p, Side::Sente));
                            lemma_occurrences_concat(hand_text(s, Side::Sente), hand_text(g, Side::Gote), letter(p, Side::Gote));
                            lemma_hand_occurrences(s, Side::Sente, 7, k as int, Side::Sente);
                            lemma_hand_occurrences(g, Side::Gote, 7, k as int, Side::Sente);
                            lemma_hand_occurrences(s, Side::Sente, 7, k as int, Side::Gote);
                            lemma_hand_occurrences(g, Side::Gote, 7, k as int, Side::Gote);
                        }
                    }
                }
                if t == seq!['-'] {
                    assert(t[0] == cs@[lo as int]);
                }
                if up > 255 {
                    assert(occurrences(t, letter(piece_at_index(k as int)->0, Side::Sente)) > 255);
                } else {
                    assert(occurrences(t, letter(piece_at_index(k as int)->0, Side::Gote)) > 255);
                }
            }
            return Err("SFEN has invalid hand");
        }
        proof {
            assert forall|j: int, s: Side| 0 <= j < k + 1 implies #[trigger] occurrences(t, letter(piece_at_index(j)->0, s)) <= 255 by {
                if j == k {
                    match s {
                        Side::Sente => {},
                        Side::Gote => {},
                    }
                }
            }
        }
        k += 1;
    }
    let sente = Hand::from_chars(&chars, Side::Sente);
    let gote = Hand::from_chars(&chars, Side::Gote);
    proof {
        assert forall|s: Hand, g: Hand| #[trigger] hands_pair_text(s, g) == t implies sente.pieces@ == s.pieces@
            && gote.pieces@ == g.pieces@ by {
            if s.empty_spec() && g.empty_spec() {
                assert(t == seq!['-']);
                assert(t[0] == cs@[lo as int]);
            }
            assert(chars@ == hand_text(s, Side::Sente) + hand_text(g, Side::Gote));
            assert forall|k: int| 0 <= k < 7 implies #[trigger] sente.pieces@[k] == s.pieces@[k] by {
                let c = letter(piece_at_index(k)->0, Side::Sente);
                lemma_occurrences_concat(hand_text(s, Side::Sente), hand_text(g, Side::Gote), c);
                lemma_hand_occurrences(s, Side::Sente, 7, k, Side::Sente);
                lemma_hand_occurrences(g, Side::Gote, 7, k, Side::Sente);
            }
            assert forall|k: int| 0 <= k < 7 implies #[trigger] gote.pieces@[k] == g.pieces@[k] by {
                let c = letter(piece_at_index(k)->0, Side::Gote);
                lemma_occurrences_concat(hand_text(s, Side::Sente), hand_text(g, Side::Gote), c);
                lemma_hand_occurrences(s, Side::Sente, 7, k, Side::Gote);
                lemma_hand_occurrences(g, Side::Gote, 7, k, Side::Gote);
            }
            assert(sente.pieces@ =~= s.pieces@);
            assert(gote.pieces@ =~= g.pieces@);
        }
    }
    Ok((sente, gote))
}

/// A prefix of a string of digits reads at most the whole.
proof fn lemma_prefix_value(t: Seq<char>, j: int)
    requires
        0 <= j <= t.len(),
        forall|k: int| 0 <= k < t.len() ==> '0' <= #[trigger] t[k] <= '9',
    ensures
        digits_value(t.take(j)) <= digits_value(t),
        digits_value(t.take(j)) >= 0,
    decreases t.len(),
{
    if j == t.len() {
        assert(t.take(j) =~= t);
        lemma_digits_nonneg(t);
    } else {
        let d = t.drop_last();
        assert forall|k: int| 0 <= k < d.len() implies '0' <= #[trigger] d[k] <= '9' by {
            assert(d[k] == t[k]);
        }
        lemma_prefix_value(d, j);
        assert(d.take(j) =~= t.take(j));
        lemma_digits_nonneg(d);
    }
}

proof fn lemma_digits_nonneg(t: Seq<char>)
    requires
        forall|k: int| 0 <= k < t.len() ==> '0' <= #[trigger] t[k] <= '9',
    ensures
        digits_value(t) >= 0,
    decreases t.len(),
{
    if t.len() > 0 {
        let d = t.drop_last();
        assert forall|k: int| 0 <= k < d.len() implies '0' <= #[trigger] d[k] <= '9' by {
            assert(d[k] == t[k]);
        }
        lemma_digits_nonneg(d);
    }
}

/// Reads the move counter field `cs[lo..hi]`: decimal digits, at most 255.
fn read_counter(cs: &Vec<char>, lo: usize, hi: usize) -> (r: Result<u8, &'static str>)
    requires
        lo <= hi <= cs@.len(),
    ensures
        forall|n: u8| #[trigger] decimal(n as nat) == cs@.subrange(lo as int, hi as int) ==> r == Ok::<u8, &'static str>(n),
        r is Ok <==> counter_ok(cs@.subrange(lo as int, hi as int)),
        r is Ok ==> r->Ok_0 == digits_value(cs@.subrange(lo as int, hi as int)),
{
    let ghost t = cs@.subrange(lo as int, hi as int);
    let mut value: u32 = 0;
    let mut i: usize = lo;
    while i < hi
        invariant
            lo <= i <= hi,
            hi <= cs@.len(),
            t == cs@.subrange(lo as int, hi as int),
            value <= 255,
            value == digits_value(cs@.subrange(lo as int, i as int)),
            forall|k: int| 0 <= k < i - lo ==> '0' <= #[trigger] t[k] <= '9',
        decreases hi - i,
    {
        let c = cs[i];
        if !('0' <= c && c <= '9') {
            proof {
                assert(t[i - lo] == c);
                assert forall|n: u8| #[trigger] decimal(n as nat) != t by {
                    if decimal(n as nat) == t {
                        lemma_decimal(n as nat);
                        assert(c == t[i - lo]);
                        assert(decimal(n as nat)[i - lo] == c);
                    }
                }
            }
            return Err("SFEN has invalid number of moves");
        }
        value = value * 10 + (c as u32 - '0' as u32);
        proof {
            assert(cs@.subrange(lo as int, i + 1).drop_last() =~= cs@.subrange(lo as int, i as int));
            assert(cs@.subrange(lo as int, i + 1).last() == c);
            assert(value == digits_value(cs@.subrange(lo as int, i + 1)));
        }
        if value > 255 {
            proof {
                assert forall|n: u8| #[trigger] decimal(n as nat) != t by {
                    if decimal(n as nat) == t {
                        lemma_decimal(n as nat);
                        assert(cs@.subrange(lo as int, i + 1) =~= t.take(i + 1 - lo));
                        assert(digits_value(decimal(n as nat).take(i + 1 - lo)) <= n);
                    }
                }
                if counter_ok(t) {
                    assert(cs@.subrange(lo as int, i + 1) =~= t.take(i + 1 - lo));
                    lemma_prefix_value(t, i + 1 - lo);
                }
            }
            return Err("SFEN has invalid number of moves");
        }
        proof {
            assert(t[i - lo] == c);
        }
        i += 1;
    }
    proof {
        assert(cs@.subrange(lo as int, i as int) =~= t);
        assert forall|n: u8| #[trigger] decimal(n as nat) == t implies value == n by {
            lemma_decimal(n as nat);
        }
    }
    Ok(value as u8)
}

impl Board {
    /// Square `sq` comes before square (`rank`, `file`) in reading order: a
    /// higher rank, or this rank and a lower file.
    pub open spec fn read_before(sq: int, rank: int, file: int) -> bool {
        rank_of(sq) > rank || (rank_of(sq) == rank && file_of(sq) < file)
    }

    /// Every occupied square comes before square (`rank`, `file`).
    pub open spec fn filled_before(&self, rank: int, file: int) -> bool {
        forall|sq: int|
            0 <= sq < 81 && #[trigger] self.occupant(sq) is Some ==> Board::read_before(sq, rank, file)
    }

    /// `b0` is a position whose board field is the text `cs[lo..hi]`.
    pub open spec fn written_as(b0: Board, cs: Seq<char>, lo: int, hi: int) -> bool {
        &&& b0.wf()
        &&& 0 <= lo <= hi <= cs.len()
        &&& cs.subrange(lo, hi) == ranks_text(b0, 8)
    }

    /// Reading `b0`'s board field has reached square (`rank`, `file`) at index `i`.
    pub open spec fn reading(&self, b0: Board, cs: Seq<char>, i: int, hi: int, rank: int, file: int) -> bool {
        &&& 0 <= i <= hi <= cs.len()
        &&& cs.subrange(i, hi) == row_text(b0, rank, file, 0) + rest_text(b0, rank)
        &&& forall|sq: int|
            0 <= sq < 81 ==> #[trigger] self.occupant(sq) == if Board::read_before(sq, rank, file) {
                b0.occupant(sq)
            } else {
                None
            }
    }

    /// Reads the board field `cs[lo..hi]` onto the empty board `board`.
    #[verifier::rlimit(60)]
    fn parse_squares(board: &mut Board, cs: &Vec<char>, lo: usize, hi: usize) -> (r: Result<(), &'static str>)
        requires
            old(board).wf(),
            forall|sq: int| 0 <= sq < 81 ==> #[trigger] old(board).occupant(sq) is None,
            lo <= hi <= cs@.len(),
        ensures
            final(board).wf(),
            final(board).same_state(old(board)),
            forall|b0: Board|
                #[trigger] Board::written_as(b0, cs@, lo as int, hi as int) ==> r is Ok && forall|sq: int|
                    0 <= sq < 81 ==> #[trigger] final(board).occupant(sq) == b0.occupant(sq),
            r is Ok <==> board_scan(cs@.subrange(lo as int, hi as int), 0, 0, 0),
            r is Ok ==> forall|sq: int|
                0 <= sq < 81 ==> #[trigger] final(board).occupant(sq) == square_read(
                    cs@.subrange(lo as int, hi as int),
                    0,
                    0,
                    0,
                    sq,
                ),
    {
        let ghost text = cs@.subrange(lo as int, hi as int);
        let mut rank_idx: u8 = 0;
        let mut file_idx: u8 = 0;
        let mut i: usize = lo;
        let ghost start = *board;
        proof {
            assert forall|b0: Board| #[trigger] Board::written_as(b0, cs@, lo as int, hi as int) implies board.reading(
                b0,
                cs@,
                lo as int,
                hi as int,
                8,
                0,
            ) by {
                assert(ranks_text(b0, 8) == row_text(b0, 8, 0, 0) + rest_text(b0, 8));
            }
        }
        while i < hi
            invariant
                lo <= i <= hi,
                hi <= cs@.len(),
                rank_idx <= 8,
                file_idx <= 9,
                board.wf(),
                board.same_state(&start),
                start == *old(board),
                text == cs@.subrange(lo as int, hi as int),
                board_scan(text, i - lo, rank_idx as int, file_idx as int) == board_scan(text, 0, 0, 0),
                board.filled_before(8 - rank_idx, file_idx as int),
                forall|sq: int|
                    0 <= sq < 81 ==> if Board::read_before(sq, 8 - rank_idx, file_idx as int) {
                        #[trigger] board.occupant(sq) == square_read(text, 0, 0, 0, sq)
                    } else {
                        board.occupant(sq) is None && square_read(text, 0, 0, 0, sq) == square_read(
                            text,
                            i - lo,
                            rank_idx as int,
                            file_idx as int,
                            sq,
                        )
                    },
                forall|b0: Board|
                    #[trigger] Board::written_as(b0, cs@, lo as int, hi as int) ==> board.reading(
                        b0,
                        cs@,
                        i as int,
                        hi as int,
                        8 - rank_idx,
                        file_idx as int,
                    ),
            decreases hi - i,
        {
            let c = cs[i];
            assert(text[i - lo] == c);
            let ghost ob = *board;
            let ghost oi = i;
            let ghost orr = rank_idx;
            let ghost of = file_idx;
            let ghost rank = 8 - rank_idx;
            let ghost file = file_idx as int;
            proof {
                assert forall|b0: Board| #[trigger] Board::written_as(b0, cs@, lo as int, hi as int) implies ({
                    let t = row_text(b0, rank, file, 0) + rest_text(b0, rank);
                    &&& t.len() > 0
                    &&& t[0] == c
                }) by {
                    assert(cs@.subrange(i as int, hi as int)[0] == c);
                }
            }
            if c == '/' {
                if file_idx != 9 || rank_idx == 8 {
                    proof {
                        assert forall|b0: Board| !#[trigger] Board::written_as(b0, cs@, lo as int, hi as int) by {
                            if Board::written_as(b0, cs@, lo as int, hi as int) {
                                if file < 9 {
                                    lemma_row_start(b0, rank, file);
                                    Board::lemma_token_start(b0, rank, file);
                                } else {
                                    assert(row_text(b0, rank, 9, 0) =~= Seq::<char>::empty());
                                    assert(rest_text(b0, rank) =~= Seq::<char>::empty());
                                }
                            }
                        }
                    }
                    if file_idx != 9 {
                        return Err("SFEN has invalid number of files");
                    }
                    return Err("SFEN has invalid number of ranks");
                }
                proof {
                    assert forall|b0: Board| #[trigger] Board::written_as(b0, cs@, lo as int, hi as int) implies board.reading(
                        b0,
                        cs@,
                        i + 1,
                        hi as int,
                        rank - 1,
                        0,
                    ) by {
                        assert(row_text(b0, rank, 9, 0) =~= Seq::<char>::empty());
                        assert(cs@.subrange(i + 1, hi as int) =~= cs@.subrange(i as int, hi as int).subrange(1, hi - i));
                        assert(rest_text(b0, rank) == seq!['/'] + ranks_text(b0, rank - 1));
                        assert(row_text(b0, rank, 9, 0) + rest_text(b0, rank) =~= rest_text(b0, rank));
                        assert((seq!['/'] + ranks_text(b0, rank - 1)).subrange(1, hi - i) =~= ranks_text(b0, rank - 1));
                        assert(ranks_text(b0, rank - 1) =~= row_text(b0, rank - 1, 0, 0) + rest_text(b0, rank - 1));
                    }
                }
                rank_idx += 1;
                file_idx = 0;
                i += 1;
            } else {
                match run_length(c) {
                    Some(n) => {
                        if file_idx + n > 9 {
                            proof {
                                assert forall|b0: Board| !#[trigger] Board::written_as(b0, cs@, lo as int, hi as int) by {
                                    if Board::written_as(b0, cs@, lo as int, hi as int) {
                                        Board::lemma_digit_start(b0, rank, file, c);
                                        lemma_row_start(b0, rank, file);
                                    }
                                }
                            }
                            return Err("SFEN has invalid number of files");
                        }
                        proof {
                            assert forall|b0: Board| #[trigger] Board::written_as(b0, cs@, lo as int, hi as int) implies board.reading(
                                b0,
                                cs@,
                                i + 1,
                                hi as int,
                                rank,
                                file + n,
                            ) by {
                                Board::lemma_digit_start(b0, rank, file, c);
                                lemma_row_start(b0, rank, file);
                                let tail = row_text(b0, rank, file + n, 0) + rest_text(b0, rank);
                                assert(cs@.subrange(i as int, hi as int) =~= seq![c] + tail);
                                assert(cs@.subrange(i + 1, hi as int) =~= (seq![c] + tail).subrange(1, hi - i));
                                assert((seq![c] + tail).subrange(1, hi - i) =~= tail);
                                assert forall|sq: int| 0 <= sq < 81 implies #[trigger] board.occupant(sq) == if Board::read_before(
                                    sq,
                                    rank,
                                    file + n,
                                ) {
                                    b0.occupant(sq)
                                } else {
                                    None
                                } by {
                                    if rank_of(sq) == rank && file <= file_of(sq) < file + n {
                                        assert(sq == square_at(rank, file_of(sq)));
                                        assert(b0.occupant(square_at(rank, file_of(sq))) is None);
                                    }
                                }
                            }
                        }
                        file_idx += n;
                        i += 1;
                    },
                    None => {
                        let (piece, letter_char, width) = if c == '+' {
                            if i + 1 >= hi {
                                proof {
                                    assert forall|b0: Board| !#[trigger] Board::written_as(b0, cs@, lo as int, hi as int) by {
                                        if Board::written_as(b0, cs@, lo as int, hi as int) {
                                            Board::lemma_piece_start(b0, rank, file, c);
                                        }
                                    }
                                }
                                return Err("SFEN has invalid promotion character");
                            }
                            let c2 = cs[i + 1];
                            assert(text[i + 1 - lo] == c2);
                            let p = match piece_from_letter(c2) {
                                Some(b) => b.to_promo_piece(),
                                None => None,
                            };
                            (p, c2, 2usize)
                        } else {
                            (piece_from_letter(c), c, 1usize)
                        };
                        proof {
                            assert forall|b0: Board| #[trigger] Board::written_as(b0, cs@, lo as int, hi as int) implies ({
                                let t = row_text(b0, rank, file, 0) + rest_text(b0, rank);
                                &&& file < 9
                                &&& b0.occupant(square_at(rank, file)) matches Some((s, p)) && token(p, s).len() == width && piece == Some(p)
                                    && (is_upper(letter_char) == (s == Side::Sente))
                                    && t.subrange(width as int, t.len() as int) == row_text(b0, rank, file + 1, 0) + rest_text(b0, rank)
                            }) by {
                                Board::lemma_piece_start(b0, rank, file, c);
                                if c == '+' {
                                    assert(cs@.subrange(i as int, hi as int)[1] == letter_char);
                                }
                            }
                        }
                        let piece = match piece {
                            Some(p) => p,
                            None => {
                                proof {
                                    assert forall|b0: Board| !#[trigger] Board::written_as(b0, cs@, lo as int, hi as int) by {}
                                }
                                return Err("SFEN has invalid piece character");
                            },
                        };
                        if file_idx >= 9 {
                            proof {
                                assert forall|b0: Board| !#[trigger] Board::written_as(b0, cs@, lo as int, hi as int) by {}
                            }
                            return Err("SFEN has invalid number of files");
                        }
                        let side = if upper(letter_char) {
                            Side::Sente
                        } else {
                            Side::Gote
                        };
                        let sq = crate::consts::Square::of(8 - rank_idx, file_idx);
                        let ghost before = *board;
                        board.add_piece(side, piece, sq);
                        proof {
                            assert forall|x: int|
                                0 <= x < 81 && #[trigger] board.occupant(x) is Some implies Board::read_before(x, rank, file + 1) by {
                                if x != sq {
                                    assert(before.occupant(x) is Some);
                                }
                            }
                            assert forall|b0: Board| #[trigger] Board::written_as(b0, cs@, lo as int, hi as int) implies board.reading(
                                b0,
                                cs@,
                                i + width,
                                hi as int,
                                rank,
                                file + 1,
                            ) by {
                                let t = row_text(b0, rank, file, 0) + rest_text(b0, rank);
                                assert(cs@.subrange(i + width, hi as int) =~= t.subrange(width as int, t.len() as int));
                                assert forall|x: int| 0 <= x < 81 implies #[trigger] board.occupant(x) == if Board::read_before(
                                    x,
                                    rank,
                                    file + 1,
                                ) {
                                    b0.occupant(x)
                                } else {
                                    None
                                } by {
                                    if x != sq {
                                        assert(before.occupant(x) == board.occupant(x));
                                    }
                                }
                            }
                        }
                        file_idx += 1;
                        i += width;
                    },
                }
            }
            proof {
                assert forall|x: int| 0 <= x < 81 implies if Board::read_before(x, 8 - rank_idx, file_idx as int) {
                    #[trigger] board.occupant(x) == square_read(text, 0, 0, 0, x)
                } else {
                    board.occupant(x) is None && square_read(text, 0, 0, 0, x) == square_read(
                        text,
                        i - lo,
                        rank_idx as int,
                        file_idx as int,
                        x,
                    )
                } by {
                    lemma_square(x);
                    if 0 <= of < 9 {
                        lemma_coords_text(8 - orr, of as int);
                    }
                    if !Board::read_before(x, 8 - orr, of as int) {
                        assert(ob.occupant(x) is None);
                        if Board::read_before(x, 8 - rank_idx, file_idx as int) && c != '/' && '1' <= c <= '9' {
                            lemma_read_after(text, i - lo, rank_idx as int, file_idx as int, x);
                        }
                    } else {
                        assert(ob.occupant(x) == square_read(text, 0, 0, 0, x));
                    }
                }
            }
        }
        if rank_idx != 8 || file_idx != 9 {
            proof {
                assert forall|b0: Board| !#[trigger] Board::written_as(b0, cs@, lo as int, hi as int) by {
                    if Board::written_as(b0, cs@, lo as int, hi as int) {
                        assert(cs@.subrange(i as int, hi as int) =~= Seq::<char>::empty());
                        if file_idx < 9 {
                            lemma_row_start(b0, 8 - rank_idx, file_idx as int);
                            Board::lemma_token_start(b0, 8 - rank_idx, file_idx as int);
                        }
                    }
                }
            }
            if rank_idx != 8 {
                return Err("SFEN has invalid number of ranks");
            }
            return Err("SFEN has invalid number of files");
        }
        proof {
            assert forall|b0: Board| #[trigger] Board::written_as(b0, cs@, lo as int, hi as int) implies forall|sq: int|
                0 <= sq < 81 ==> #[trigger] board.occupant(sq) == b0.occupant(sq) by {
                assert forall|sq: int| 0 <= sq < 81 implies #[trigger] board.occupant(sq) == b0.occupant(sq) by {
                    assert(Board::read_before(sq, 0, 9));
                }
            }
        }
        Ok(())
    }

    /// A non-empty row text does not start with '/'.
    proof fn lemma_token_start(b0: Board, rank: int, file: int)
        requires
            0 <= file < 9,
        ensures
            row_text(b0, rank, file, 0).len() > 0,
            row_text(b0, rank, file, 0)[0] != '/',
            (row_text(b0, rank, file, 0) + rest_text(b0, rank))[0] == row_text(b0, rank, file, 0)[0],
    {
        lemma_row_start(b0, rank, file);
        if b0.occupant(square_at(rank, file)) is None {
            let e = empties(b0, rank, file);
            assert(row_text(b0, rank, file, 0)[0] == digit_char(e as int));
        } else {
            let (s, p) = b0.occupant(square_at(rank, file))->0;
            assert(row_text(b0, rank, file, 0)[0] == token(p, s)[0]);
        }
    }

    /// A rank text starting with the digit `c` starts with a run of that many
    /// empty squares.
    proof fn lemma_digit_start(b0: Board, rank: int, file: int, c: char)
        requires
            0 <= file <= 9,
            '1' <= c <= '9',
            (row_text(b0, rank, file, 0) + rest_text(b0, rank)).len() > 0,
            (row_text(b0, rank, file, 0) + rest_text(b0, rank))[0] == c,
        ensures
            file < 9,
            b0.occupant(square_at(rank, file)) is None,
            empties(b0, rank, file) == c as int - '0' as int,
    {
        if file == 9 {
            assert(row_text(b0, rank, 9, 0) =~= Seq::<char>::empty());
            assert(row_text(b0, rank, 9, 0) + rest_text(b0, rank) =~= rest_text(b0, rank));
        } else {
            Board::lemma_token_start(b0, rank, file);
            lemma_row_start(b0, rank, file);
            if b0.occupant(square_at(rank, file)) is Some {
                let (s, p) = b0.occupant(square_at(rank, file))->0;
                assert(row_text(b0, rank, file, 0)[0] == token(p, s)[0]);
            } else {
                let e = empties(b0, rank, file);
                assert(row_text(b0, rank, file, 0)[0] == digit_char(e as int));
            }
        }
    }

    /// A rank text starting with something other than a digit or '/' starts
    /// with the text of the piece on the square.
    proof fn lemma_piece_start(b0: Board, rank: int, file: int, c: char)
        requires
            0 <= file <= 9,
            c != '/',
            !('1' <= c <= '9'),
            (row_text(b0, rank, file, 0) + rest_text(b0, rank)).len() > 0,
            (row_text(b0, rank, file, 0) + rest_text(b0, rank))[0] == c,
        ensures
            file < 9,
            b0.occupant(square_at(rank, file)) matches Some((s, p)) && {
                let t = row_text(b0, rank, file, 0) + rest_text(b0, rank);
                &&& t.subrange(0, token(p, s).len() as int) == token(p, s)
                &&& t.subrange(token(p, s).len() as int, t.len() as int) == row_text(b0, rank, file + 1, 0)
                    + rest_text(b0, rank)
                &&& (c == '+') == is_promoted(p)
                &&& piece_of_letter(letter(p, s)) == Some(unpromoted(p))
                &&& (is_promoted(p) ==> promoted(unpromoted(p)) == Some(p))
                &&& (!is_promoted(p) ==> unpromoted(p) == p)
                &&& is_upper(letter(p, s)) == (s == Side::Sente)
                &&& letter(p, s) != '+'
            },
    {
        if file == 9 {
            assert(row_text(b0, rank, 9, 0) =~= Seq::<char>::empty());
            assert(row_text(b0, rank, 9, 0) + rest_text(b0, rank) =~= rest_text(b0, rank));
        } else {
            Board::lemma_token_start(b0, rank, file);
            lemma_row_start(b0, rank, file);
            if b0.occupant(square_at(rank, file)) is None {
                let e = empties(b0, rank, file);
                assert(row_text(b0, rank, file, 0)[0] == digit_char(e as int));
            } else {
                let (s, p) = b0.occupant(square_at(rank, file))->0;
                let t = row_text(b0, rank, file, 0) + rest_text(b0, rank);
                let k = token(p, s);
                assert(t =~= k + (row_text(b0, rank, file + 1, 0) + rest_text(b0, rank)));
                assert(t.subrange(0, k.len() as int) =~= k);
                assert(t.subrange(k.len() as int, t.len() as int) =~= row_text(b0, rank, file + 1, 0) + rest_text(b0, rank));
                assert(k[0] == c);
            }
        }
    }

    /// Reads a position from its record: board, side to move, reserves and,
    /// optionally, the move counter. The record of any position reads back as
    /// that position.
    #[verifier::rlimit(100)]
    pub fn from_sfen(sfen: String) -> (r: Result<Board, &'static str>)
        ensures
            r matches Ok(b) ==> b.wf(),
            forall|p: Board|
                #[trigger] record(p) == sfen@ && p.wf() ==> (r is Ok && same_position(r->Ok_0, p)),
            forall|p: Board|
                #[trigger] record(p) == sfen@ && p.wf() ==> (r is Ok && record(r->Ok_0) == sfen@),
            (field_count(sfen@, 0) < 3 || field_count(sfen@, 0) > 4) ==> r == Err::<Board, &'static str>(
                "SFEN has invalid number of parts",
            ),
            r is Ok <==> record_ok(sfen@),
            r is Ok ==> read_as(r->Ok_0, sfen@),
            r is Ok ==> board_scan(field(sfen@, 0), 0, 0, 0),
            r is Ok ==> field(sfen@, 1) == seq!['b'] || field(sfen@, 1) == seq!['w'],
            r is Ok ==> hands_ok(field(sfen@, 2)),
            r is Ok && field_count(sfen@, 0) == 4 ==> counter_ok(field(sfen@, 3)),
    {
        let mut board = Board::new();
        let cs = chars_of(sfen.as_str());
        let ghost t = cs@;
        let f1 = next_field(&cs, 0);
        let f2 = next_field(&cs, f1.1);
        let f3 = next_field(&cs, f2.1);
        let f4 = next_field(&cs, f3.1);
        proof {
            assert(field_bounds(t, 0) == (f1.0 as int, f1.1 as int));
            assert(field_bounds(t, 1) == (f2.0 as int, f2.1 as int));
            assert(field_bounds(t, 2) == (f3.0 as int, f3.1 as int));
            assert(field_bounds(t, 3) == (f4.0 as int, f4.1 as int));
        }
        proof {
            assert forall|p: Board| #[trigger] record(p) == sfen@ && p.wf() implies ({
                let n = ranks_text(p, 8).len() as int;
                let m = hands_text(p).len() as int;
                &&& f1.0 == 0 && f1.1 == n
                &&& f2.0 == n + 1 && f2.1 == n + 2
                &&& f3.0 == n + 3 && f3.1 == n + 3 + m
                &&& f4.0 == n + 4 + m && f4.1 == t.len()
            }) by {
                lemma_record_parts(p);
                let rt = ranks_text(p, 8);
                let h = hands_text(p);
                let n = rt.len() as int;
                let m = h.len() as int;
                assert forall|j: int| 0 <= j < n implies !is_space(#[trigger] t[j]) by {
                    assert(t[j] == t.subrange(0, n)[j]);
                }
                lemma_field_unique(t, 0, 0, n, f1.0 as int, f1.1 as int);
                assert(stm_text(p)[0] == 'b' || stm_text(p)[0] == 'w');
                lemma_field_unique(t, n, n + 1, n + 2, f2.0 as int, f2.1 as int);
                assert forall|j: int| n + 3 <= j < n + 3 + m implies !is_space(#[trigger] t[j]) by {
                    assert(t[j] == t.subrange(n + 3, n + 3 + m)[j - (n + 3)]);
                }
                lemma_field_unique(t, n + 2, n + 3, n + 3 + m, f3.0 as int, f3.1 as int);
                assert forall|j: int| n + 4 + m <= j < t.len() implies !is_space(#[trigger] t[j]) by {
                    assert(t[j] == t.subrange(n + 4 + m, t.len() as int)[j - (n + 4 + m)]);
                }
                lemma_field_unique(t, n + 3 + m, n + 4 + m, t.len() as int, f4.0 as int, f4.1 as int);
            }
        }
        if f1.0 == f1.1 || f2.0 == f2.1 || f3.0 == f3.1 {
            return Err("SFEN has invalid number of parts");
        }
        if f4.0 < f4.1 {
            let f5 = next_field(&cs, f4.1);
            if f5.0 < f5.1 {
                return Err("SFEN has invalid number of parts");
            }
        }
        let (lo, hi) = f1;
        match Board::parse_squares(&mut board, &cs, lo, hi) {
            Ok(()) => {},
            Err(e) => {
                proof {
                    assert forall|p: Board| !(#[trigger] record(p) == sfen@ && p.wf()) by {
                        if record(p) == sfen@ && p.wf() {
                            lemma_record_parts(p);
                            assert(Board::written_as(p, t, lo as int, hi as int));
                        }
                    }
                }
                return Err(e);
            },
        }
        let ghost parsed = board;
        proof {
            assert(cs@.subrange(lo as int, hi as int) == field(sfen@, 0));
        }
        proof {
            assert forall|p: Board| #[trigger] record(p) == sfen@ && p.wf() implies forall|sq: int|
                0 <= sq < 81 ==> #[trigger] parsed.occupant(sq) == p.occupant(sq) by {
                lemma_record_parts(p);
                assert(Board::written_as(p, t, lo as int, hi as int));
            }
        }
        let (lo, hi) = f2;
        if hi - lo != 1 {
            proof {
                assert(field(sfen@, 1).len() == hi - lo);
            }
            return Err("SFEN has invalid side to move");
        }
        proof {
            assert(field(sfen@, 1) =~= seq![cs@[lo as int]]);
        }
        if cs[lo] == 'b' {
            board.set_stm(Side::Sente);
        } else if cs[lo] == 'w' {
            board.set_stm(Side::Gote);
        } else {
            proof {
                assert forall|p: Board| !(#[trigger] record(p) == sfen@ && p.wf()) by {
                    if record(p) == sfen@ && p.wf() {
                        lemma_record_parts(p);
                    }
                }
                let f = field(sfen@, 1);
                assert(f[0] == cs@[lo as int]);
                if f == seq!['b'] {
                    assert(f[0] == 'b');
                }
                if f == seq!['w'] {
                    assert(f[0] == 'w');
                }
            }
            return Err("SFEN has invalid side to move");
        }
        proof {
            assert forall|p: Board| #[trigger] record(p) == sfen@ && p.wf() implies board.to_move() == p.to_move() by {
                lemma_record_parts(p);
            }
        }
        let (lo, hi) = f3;
        let read = read_hands(&cs, lo, hi);
        let (sente, gote) = match read {
            Ok(h) => h,
            Err(e) => {
                proof {
                    assert forall|p: Board| !(#[trigger] record(p) == sfen@ && p.wf()) by {
                        if record(p) == sfen@ && p.wf() {
                            lemma_record_parts(p);
                            assert(hands_pair_text(p.hand_of(Side::Sente), p.hand_of(Side::Gote)) == cs@.subrange(
                                lo as int,
                                hi as int,
                            ));
                        }
                    }
                }
                return Err(e);
            },
        };
        let ghost sided = board;
        board.set_hand(Side::Sente, sente);
        board.set_hand(Side::Gote, gote);
        let ghost handed = board;
        proof {
            assert(cs@.subrange(lo as int, hi as int) == field(sfen@, 2));
            assert(handed.hand_of(Side::Sente) == sente);
            assert(handed.hand_of(Side::Gote) == gote);
            assert(read is Ok && read->Ok_0.0 == sente && read->Ok_0.1 == gote);
            assert forall|k: int| 0 <= k < 7 implies #[trigger] sente.pieces@[k] == hand_count_read(
                cs@.subrange(lo as int, hi as int),
                k,
                Side::Sente,
            ) && gote.pieces@[k] == hand_count_read(cs@.subrange(lo as int, hi as int), k, Side::Gote) by {
                assert(read->Ok_0.0.pieces@[k] == hand_count_read(cs@.subrange(lo as int, hi as int), k, Side::Sente));
            }
            assert(forall|k: int|
                0 <= k < 7 ==> #[trigger] handed.hand_of(Side::Sente).pieces@[k] == hand_count_read(field(sfen@, 2), k, Side::Sente)
                    && handed.hand_of(Side::Gote).pieces@[k] == hand_count_read(field(sfen@, 2), k, Side::Gote));
            assert forall|sq: int| 0 <= sq < 81 implies #[trigger] handed.occupant(sq) == parsed.occupant(sq) by {
                assert(handed.occupant(sq) == sided.occupant(sq));
                assert(sided.occupant(sq) == parsed.occupant(sq));
            }
        }
        proof {
            assert forall|p: Board| #[trigger] record(p) == sfen@ && p.wf() implies board.hand_of(Side::Sente).pieces@
                == p.hand_of(Side::Sente).pieces@ && board.hand_of(Side::Gote).pieces@ == p.hand_of(
                Side::Gote,
            ).pieces@ by {
                lemma_record_parts(p);
                assert(hands_pair_text(p.hand_of(Side::Sente), p.hand_of(Side::Gote)) == cs@.subrange(
                    lo as int,
                    hi as int,
                ));
            }
        }
        if f4.0 < f4.1 {
            let (lo, hi) = f4;
            match read_counter(&cs, lo, hi) {
                Ok(n) => {
                    proof {
                        assert(cs@.subrange(lo as int, hi as int) == field(sfen@, 3));
                    }
                    board.set_moves(n);
                },
                Err(e) => {
                    proof {
                        assert forall|p: Board| !(#[trigger] record(p) == sfen@ && p.wf()) by {
                            if record(p) == sfen@ && p.wf() {
                                lemma_record_parts(p);
                                assert(decimal(p.move_count() as nat) == cs@.subrange(lo as int, hi as int));
                            }
                        }
                    }
                    return Err(e);
                },
            }
            proof {
                assert forall|p: Board| #[trigger] record(p) == sfen@ && p.wf() implies board.move_count() == p.move_count() by {
                    lemma_record_parts(p);
                    assert(decimal(p.move_count() as nat) == cs@.subrange(lo as int, hi as int));
                }
            }
        } else {
            proof {
                assert forall|p: Board| !(#[trigger] record(p) == sfen@ && p.wf()) by {
                    if record(p) == sfen@ && p.wf() {
                        lemma_record_parts(p);
                    }
                }
            }
        }
        proof {
            assert forall|p: Board| #[trigger] record(p) == sfen@ && p.wf() implies record(board) == sfen@ by {
                lemma_record_same(board, p);
            }
        }
        proof {
            assert forall|sq: int| 0 <= sq < 81 implies #[trigger] board.occupant(sq) == square_read(field(sfen@, 0), 0, 0, 0, sq) by {
                assert(board.occupant(sq) == handed.occupant(sq));
                assert(handed.occupant(sq) == parsed.occupant(sq));
            }
            if field(sfen@, 1) == seq!['b'] {
                assert(field(sfen@, 1)[0] == 'b');
            }
            assert(board.hand_of(Side::Sente) == handed.hand_of(Side::Sente));
            assert(board.hand_of(Side::Gote) == handed.hand_of(Side::Gote));
            assert(board.to_move() == if field(sfen@, 1) == seq!['b'] {
                Side::Sente
            } else {
                Side::Gote
            });
            assert forall|k: int| 0 <= k < 7 implies #[trigger] board.hand_of(Side::Sente).pieces@[k] == hand_count_read(
                field(sfen@, 2),
                k,
                Side::Sente,
            ) && board.hand_of(Side::Gote).pieces@[k] == hand_count_read(field(sfen@, 2), k, Side::Gote) by {
                assert(handed.hand_of(Side::Sente).pieces@[k] == hand_count_read(field(sfen@, 2), k, Side::Sente));
                assert(handed.hand_of(Side::Gote).pieces@[k] == hand_count_read(field(sfen@, 2), k, Side::Gote));
            }
            assert(board.move_count() == if field_count(sfen@, 0) == 4 {
                digits_value(field(sfen@, 3))
            } else {
                0
            });
            assert(read_as(board, sfen@));
        }
        Ok(board)
    }
}

} // verus!
