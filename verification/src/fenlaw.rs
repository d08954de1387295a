//! Writing a position as FEN text and reading the text gives the position back.

use vstd::prelude::*;

use crate::bits::{group_has, holds, lemma_ext, one, size};
use crate::fen::describes;
use crate::fenspec::{
    castling_color, castling_from, castling_rook, checks_of, digit, ep_kept, fields, fields_from,
    find_from, integer, is_digit, is_space, letter, natural, no_castling, number_from, parse,
    place_from, place_one, plus_field, plus_numbers, pocket_count, pocket_of, pocket_too_full,
    rook_down, rook_up, setup_of, start_placing, trim_end, with_right, Castling, FenError, Placing, Setup,
};
use crate::keys::{full_key, lemma_pocket_same, variant_key};
use crate::network::Network;
use crate::nnue::{evaluation_is_path_independent, network_value, NnueState};
use crate::notation::{
    castling_text, checks_text, fen_text, gap_text, move_number, piece_text, placement_text,
    pocket_text, repeated, right_text, row_text, rows_text, side_text, square_text,
    square_text_round_trip,
};
use crate::rules::{
    board_wf, castling_right, lemma_one_king, occ, right_color, rook, single_right, Board, PosView,
};
use crate::state::StateInfo;
use crate::text::{decimal, decimal_int, digit_char};
use crate::types::{relative_rank, relative_square, Color, Move, Piece, PieceType};
use crate::variant::Variant;
use crate::varianteval::hand_score;

verus! {

broadcast use group_has;

// Numbers

/// No white space in a text.
pub open spec fn solid(s: Seq<char>) -> bool {
    forall|i: int| 0 <= i < s.len() ==> !is_space(#[trigger] s[i])
}

/// Digits only.
pub open spec fn all_digits(s: Seq<char>) -> bool {
    forall|i: int| 0 <= i < s.len() ==> is_digit(#[trigger] s[i])
}

proof fn lemma_decimal(n: nat)
    ensures
        decimal(n).len() > 0,
        all_digits(decimal(n)),
        solid(decimal(n)),
    decreases n,
{
    assert(is_digit(digit_char(n % 10)));
    if n >= 10 {
        lemma_decimal(n / 10);
    }
}

proof fn lemma_number_push(s: Seq<char>, c: char, i: int, acc: int)
    requires
        0 <= i <= s.len(),
        is_digit(c),
        all_digits(s),
    ensures
        number_from(s, i, acc) is Some,
        number_from(s.push(c), i, acc) == Some(number_from(s, i, acc)->0 * 10 + digit(c)),
    decreases s.len() - i,
{
    let t = s.push(c);
    if i < s.len() {
        assert(t[i] == s[i]);
        lemma_number_push(s, c, i + 1, acc * 10 + digit(s[i]));
    } else {
        assert(t[i] == c);
        assert(number_from(t, i + 1, acc * 10 + digit(c)) == Some(acc * 10 + digit(c)));
    }
}

proof fn lemma_number(n: nat)
    ensures
        number_from(decimal(n), 0, 0) == Some(n as int),
    decreases n,
{
    let c = digit_char(n % 10);
    assert(is_digit(c) && digit(c) == n % 10);
    if n < 10 {
        let s = decimal(n);
        assert(s[0] == c);
        assert(number_from(s, 1, 0 * 10 + digit(c)) == Some(digit(c)));
    } else {
        lemma_number(n / 10);
        lemma_decimal(n / 10);
        lemma_number_push(decimal(n / 10), c, 0, 0);
    }
}

/// Reading a written number gives the number back.
proof fn lemma_integer(n: int)
    requires
        i32::MIN <= n <= i32::MAX,
    ensures
        integer(decimal_int(n)) == Some(n),
        solid(decimal_int(n)),
        decimal_int(n).len() > 0,
        forall|i: int| 0 <= i < decimal_int(n).len() ==> decimal_int(n)[i] != '+',
{
    let s = decimal_int(n);
    if n < 0 {
        let d = decimal((-n) as nat);
        lemma_decimal((-n) as nat);
        lemma_number((-n) as nat);
        assert(s.skip(1) =~= d);
        assert(s[0] == '-');
        assert forall|i: int| 0 <= i < s.len() implies !is_space(#[trigger] s[i]) && s[i]
            != '+' by {
            if i > 0 {
                assert(s[i] == d[i - 1]);
            }
        }
    } else {
        lemma_decimal(n as nat);
        lemma_number(n as nat);
        assert(is_digit(s[0]));
        assert forall|i: int| 0 <= i < s.len() implies s[i] != '+' by {
            assert(is_digit(s[i]));
        }
    }
}

// Fields

proof fn lemma_fields_shift(s: Seq<char>, k: int, j: int, cur: Seq<char>)
    requires
        0 <= k <= s.len(),
        0 <= j <= s.len() - k,
    ensures
        fields_from(s, k + j, cur) == fields_from(s.skip(k), j, cur),
    decreases s.len() - k - j,
{
    let t = s.skip(k);
    if j < t.len() {
        assert(t[j] == s[k + j]);
        if is_space(t[j]) {
            lemma_fields_shift(s, k, j + 1, seq![]);
        } else {
            lemma_fields_shift(s, k, j + 1, cur.push(t[j]));
        }
    }
}

proof fn lemma_field_at(s: Seq<char>, a: Seq<char>, i: int, cur: Seq<char>)
    requires
        0 <= i <= s.len(),
        a.len() > 0,
        solid(a),
    ensures
        fields_from(s + seq![' '] + a, i, cur) == fields_from(s, i, cur).push(a),
    decreases s.len() - i,
{
    let t = s + seq![' '] + a;
    if i < s.len() {
        assert(t[i] == s[i]);
        if is_space(s[i]) {
            lemma_field_at(s, a, i + 1, seq![]);
            let first = if cur.len() == 0 {
                seq![]
            } else {
                seq![cur]
            };
            assert(first + fields_from(s, i + 1, seq![]).push(a) =~= (first + fields_from(
                s,
                i + 1,
                seq![],
            )).push(a));
        } else {
            lemma_field_at(s, a, i + 1, cur.push(s[i]));
        }
    } else {
        assert(t[i] == ' ');
        assert(is_space(t[i]));
        lemma_fields_shift(t, i + 1, 0, seq![]);
        assert(t.skip(i + 1) =~= a);
        lemma_only_field(a);
        assert(fields_from(t, i, cur) =~= fields_from(s, i, cur).push(a));
    }
}

/// A space and a word after a text add one field.
proof fn lemma_field_after(s: Seq<char>, a: Seq<char>)
    requires
        a.len() > 0,
        solid(a),
    ensures
        fields(s + seq![' '] + a) == fields(s).push(a),
{
    lemma_field_at(s, a, 0, seq![]);
}

proof fn lemma_last_field(a: Seq<char>, i: int)
    requires
        0 <= i <= a.len(),
        a.len() > 0,
        solid(a),
    ensures
        fields_from(a, i, a.subrange(0, i)) == seq![a],
    decreases a.len() - i,
{
    let cur = a.subrange(0, i);
    if i < a.len() {
        assert(cur.push(a[i]) =~= a.subrange(0, i + 1));
        lemma_last_field(a, i + 1);
    } else {
        assert(cur =~= a);
    }
}

/// A word is one field.
proof fn lemma_only_field(a: Seq<char>)
    requires
        a.len() > 0,
        solid(a),
    ensures
        fields(a) == seq![a],
{
    assert(a.subrange(0, 0) =~= seq![]);
    lemma_last_field(a, 0);
}

// Piece placement

proof fn lemma_place_shift(s: Seq<char>, k: int, j: int, p: Placing)
    requires
        0 <= k <= s.len(),
        0 <= j <= s.len() - k,
    ensures
        place_from(s, k + j, p) == place_from(s.skip(k), j, p),
    decreases s.len() - k - j,
{
    let t = s.skip(k);
    if j < t.len() {
        assert(t[j] == s[k + j]);
        match place_one(p, t[j]) {
            Ok(q) => {
                lemma_place_shift(s, k, j + 1, q);
            },
            Err(e) => {},
        }
    }
}

proof fn lemma_place_split(a: Seq<char>, c: Seq<char>, i: int, p: Placing)
    requires
        0 <= i <= a.len(),
        place_from(a, i, p) is Ok,
    ensures
        place_from(a + c, i, p) == place_from(c, 0, place_from(a, i, p)->Ok_0),
    decreases a.len() - i,
{
    let s = a + c;
    if i < a.len() {
        assert(s[i] == a[i]);
        match place_one(p, a[i]) {
            Ok(q) => {
                lemma_place_split(a, c, i + 1, q);
            },
            Err(e) => {},
        }
    } else {
        lemma_place_shift(s, i, 0, p);
        assert(s.skip(i) =~= c);
    }
}

/// Whether the square was passed before file `f` of rank `r`.
pub open spec fn passed_over(s: int, r: int, f: int) -> bool {
    s / 8 > r || (s / 8 == r && s % 8 < f)
}

/// The board as far as it has been read.
pub open spec fn shown(b: Board, r: int, f: int) -> Board {
    Seq::new(
        64,
        |s: int|
            if passed_over(s, r, f) {
                b[s]
            } else {
                Piece(12)
            },
    )
}

/// The state of reading before file `f` of rank `r`, after `gap` empty squares not counted
/// yet.
pub open spec fn placed_before(
    b: Board,
    marks: u64,
    r: int,
    f: int,
    gap: int,
    p: Placing,
) -> bool {
    &&& p.board == shown(b, r, f)
    &&& p.sq == 8 * r + f - gap
    &&& forall|s: int| 0 <= s < 64 ==> (#[trigger] holds(p.marks, s) <==> passed_over(s, r, f) && holds(marks, s))
}

proof fn lemma_gap(n: int, p: Placing)
    requires
        0 <= n <= 8,
    ensures
        place_from(gap_text(n), 0, p) == Ok::<Placing, crate::fenspec::FenError>(
            Placing { sq: p.sq + n, ..p },
        ),
{
    let t = gap_text(n);
    if n > 0 {
        let c = digit_char(n as nat);
        assert(t[0] == c);
        assert(is_digit(c) && digit(c) == n);
        let q = Placing { sq: p.sq + n, ..p };
        assert(place_one(p, t[0]) == Ok::<Placing, crate::fenspec::FenError>(q));
        assert(place_from(t, 1, q) == Ok::<Placing, crate::fenspec::FenError>(q));
    } else {
        assert(Placing { sq: p.sq + n, ..p } == p);
    }
}

proof fn lemma_piece(b: Board, marks: u64, r: int, f: int, p: Placing)
    requires
        board_wf(b),
        0 <= r < 8,
        0 <= f < 8,
        b[8 * r + f].0 < 12,
        placed_before(b, marks, r, f, 0, p),
    ensures
        place_from(piece_text(b, marks, 8 * r + f), 0, p) is Ok,
        placed_before(
            b,
            marks,
            r,
            f + 1,
            0,
            place_from(piece_text(b, marks, 8 * r + f), 0, p)->Ok_0,
        ),
{
    let s = 8 * r + f;
    let t = piece_text(b, marks, s);
    let c = b[s].to_char();
    assert(s / 8 == r && s % 8 == f);
    assert(t[0] == c);
    assert(letter(c) == Some(b[s]));
    assert(!is_digit(c) && c != '/' && c != '~');
    assert(p.board[s].0 == 12);
    let q = Placing { board: p.board.update(s, b[s]), sq: s + 1, last: s, marks: p.marks };
    assert(place_one(p, t[0]) == Ok::<Placing, crate::fenspec::FenError>(q));
    assert(q.board =~= shown(b, r, f + 1)) by {
        assert forall|x: int| 0 <= x < 64 implies q.board[x] == shown(b, r, f + 1)[x] by {
            if x != s {
                assert(passed_over(x, r, f) == passed_over(x, r, f + 1)) by {
                    if x / 8 == r && x % 8 == f {
                        assert(x == 8 * r + f);
                    }
                }
            }
        }
    }
    assert forall|x: int| 0 <= x < 64 && x != s implies passed_over(x, r, f) == passed_over(
        x,
        r,
        f + 1,
    ) by {
        if x / 8 == r && x % 8 == f {
            assert(x == 8 * r + f);
        }
    }
    if holds(marks, s) {
        assert(t.len() == 2 && t[1] == '~');
        let z = Placing { marks: q.marks | one(s), ..q };
        assert(place_one(q, t[1]) == Ok::<Placing, crate::fenspec::FenError>(z));
        assert(place_from(t, 2, z) == Ok::<Placing, crate::fenspec::FenError>(z));
        assert(place_from(t, 1, q) == Ok::<Placing, crate::fenspec::FenError>(z));
        assert(placed_before(b, marks, r, f + 1, 0, z));
    } else {
        assert(t.len() == 1);
        assert(place_from(t, 1, q) == Ok::<Placing, crate::fenspec::FenError>(q));
        assert(placed_before(b, marks, r, f + 1, 0, q));
    }
}

/// Reading the rest of a rank.
proof fn lemma_row(b: Board, marks: u64, r: int, f: int, gap: int, p: Placing)
    requires
        board_wf(b),
        forall|s: int| #[trigger] holds(marks, s) ==> b[s].0 < 12,
        0 <= r < 8,
        0 <= gap <= f <= 8,
        placed_before(b, marks, r, f, gap, p),
    ensures
        place_from(row_text(b, marks, r, f, gap), 0, p) is Ok,
        placed_before(b, marks, r, 8, 0, place_from(row_text(b, marks, r, f, gap), 0, p)->Ok_0),
    decreases 8 - f,
{
    let q = Placing { sq: p.sq + gap, ..p };
    lemma_gap(gap, p);
    if f >= 8 {
        assert(placed_before(b, marks, r, 8, 0, q));
    } else if b[8 * r + f].0 == 12 {
        let s = 8 * r + f;
        assert(s / 8 == r && s % 8 == f);
        assert forall|x: int| 0 <= x < 64 && x != s implies passed_over(x, r, f) == passed_over(
            x,
            r,
            f + 1,
        ) by {
            if x / 8 == r && x % 8 == f {
                assert(x == 8 * r + f);
            }
        }
        assert(shown(b, r, f) =~= shown(b, r, f + 1)) by {
            assert(b[s] == Piece(12));
        }
        assert(!holds(marks, s));
        lemma_row(b, marks, r, f + 1, gap + 1, p);
    } else {
        let g = gap_text(gap);
        let t = piece_text(b, marks, 8 * r + f);
        let rest = row_text(b, marks, r, f + 1, 0);
        assert(placed_before(b, marks, r, f, 0, q));
        lemma_piece(b, marks, r, f, q);
        let z = place_from(t, 0, q)->Ok_0;
        lemma_row(b, marks, r, f + 1, 0, z);
        lemma_place_split(g, t, 0, p);
        lemma_place_split(g + t, rest, 0, p);
    }
}

/// Reading the ranks from `r` down.
proof fn lemma_rows(b: Board, marks: u64, r: int, p: Placing)
    requires
        board_wf(b),
        forall|s: int| #[trigger] holds(marks, s) ==> b[s].0 < 12,
        0 <= r < 8,
        placed_before(b, marks, r, 0, 0, p),
    ensures
        place_from(rows_text(b, marks, r), 0, p) is Ok,
        placed_before(b, marks, 0, 8, 0, place_from(rows_text(b, marks, r), 0, p)->Ok_0),
    decreases r,
{
    let row = row_text(b, marks, r, 0, 0);
    lemma_row(b, marks, r, 0, 0, p);
    let q = place_from(row, 0, p)->Ok_0;
    if r <= 0 {
        assert(row + Seq::<char>::empty() =~= row);
    } else {
        let slash = seq!['/'];
        let rest = rows_text(b, marks, r - 1);
        let z = Placing { sq: q.sq - 16, ..q };
        assert(slash[0] == '/');
        assert(place_one(q, '/') == Ok::<Placing, crate::fenspec::FenError>(z));
        assert(place_from(slash, 1, z) == Ok::<Placing, crate::fenspec::FenError>(z));
        assert(place_from(slash, 0, q) == Ok::<Placing, crate::fenspec::FenError>(z));
        assert forall|x: int| 0 <= x < 64 implies passed_over(x, r, 8) == passed_over(
            x,
            r - 1,
            0,
        ) by {}
        assert(shown(b, r, 8) =~= shown(b, r - 1, 0));
        assert(placed_before(b, marks, r - 1, 0, 0, z));
        lemma_rows(b, marks, r - 1, z);
        lemma_place_split(slash, rest, 0, q);
        lemma_place_split(row, slash + rest, 0, p);
    }
}

/// Reading a written board.
proof fn lemma_board(b: Board, marks: u64)
    requires
        board_wf(b),
        forall|s: int| #[trigger] holds(marks, s) ==> b[s].0 < 12,
    ensures
        place_from(rows_text(b, marks, 7), 0, start_placing()) matches Ok(p) && p.board == b
            && p.marks == marks,
{
    let p0 = start_placing();
    assert(p0.board =~= shown(b, 7, 0));
    lemma_rows(b, marks, 7, p0);
    let p = place_from(rows_text(b, marks, 7), 0, p0)->Ok_0;
    assert(shown(b, 0, 8) =~= b);
    assert forall|s: int| 0 <= s < 64 implies holds(p.marks, s) == holds(marks, s) by {
        assert(passed_over(s, 0, 8));
    }
    lemma_ext(p.marks, marks);
}

// Characters of the placement

/// Neither white space nor an opening bracket.
pub open spec fn plain(s: Seq<char>) -> bool {
    forall|i: int| 0 <= i < s.len() ==> !is_space(#[trigger] s[i]) && s[i] != '['
}

proof fn lemma_row_plain(b: Board, marks: u64, r: int, f: int, gap: int)
    requires
        board_wf(b),
        0 <= r < 8,
        0 <= gap <= f <= 8,
    ensures
        plain(row_text(b, marks, r, f, gap)),
    decreases 8 - f,
{
    let g = gap_text(gap);
    assert(plain(g)) by {
        if gap > 0 {
            assert(is_digit(digit_char(gap as nat)));
        }
    }
    if f >= 8 {
    } else if b[8 * r + f].0 == 12 {
        lemma_row_plain(b, marks, r, f + 1, gap + 1);
    } else {
        lemma_row_plain(b, marks, r, f + 1, 0);
        let t = piece_text(b, marks, 8 * r + f);
        let rest = row_text(b, marks, r, f + 1, 0);
        assert(plain(t));
        assert(plain(g + t));
        assert(plain((g + t) + rest));
    }
}

proof fn lemma_rows_plain(b: Board, marks: u64, r: int)
    requires
        board_wf(b),
        0 <= r < 8,
    ensures
        plain(rows_text(b, marks, r)),
        rows_text(b, marks, r).len() > 0,
    decreases r,
{
    lemma_row_plain(b, marks, r, 0, 0);
    let row = row_text(b, marks, r, 0, 0);
    lemma_row_nonempty(b, marks, r, 0, 0);
    if r > 0 {
        lemma_rows_plain(b, marks, r - 1);
        assert(plain(seq!['/'] + rows_text(b, marks, r - 1)));
    }
}

proof fn lemma_row_nonempty(b: Board, marks: u64, r: int, f: int, gap: int)
    requires
        0 <= gap <= f <= 8,
        f + gap > 0 || f < 8,
    ensures
        f < 8 || gap > 0 ==> row_text(b, marks, r, f, gap).len() > 0,
    decreases 8 - f,
{
    if f < 8 && b[8 * r + f].0 == 12 {
        lemma_row_nonempty(b, marks, r, f + 1, gap + 1);
    }
}

proof fn lemma_find(s: Seq<char>, c: char, k: int, i: int)
    requires
        0 <= i <= k <= s.len(),
        forall|j: int| i <= j < k ==> s[j] != c,
        k < s.len() ==> s[k] == c,
    ensures
        find_from(s, c, i) == k,
    decreases k - i,
{
    if i < k {
        lemma_find(s, c, k, i + 1);
    }
}

// Pockets

proof fn lemma_pocket_concat(a: Seq<char>, c: Seq<char>, p: int, n: nat)
    requires
        n <= c.len(),
    ensures
        pocket_count(a + c, p, a.len() + n) == pocket_of(a, p) + pocket_count(c, p, n),
    decreases n,
{
    if n > 0 {
        lemma_pocket_concat(a, c, p, (n - 1) as nat);
        assert((a + c)[a.len() + n - 1] == c[n - 1]);
    } else {
        lemma_pocket_prefix(a, c, p, a.len());
    }
}

proof fn lemma_pocket_prefix(a: Seq<char>, c: Seq<char>, p: int, n: nat)
    requires
        n <= a.len(),
    ensures
        pocket_count(a + c, p, n) == pocket_count(a, p, n),
    decreases n,
{
    if n > 0 {
        lemma_pocket_prefix(a, c, p, (n - 1) as nat);
        assert((a + c)[n - 1] == a[n - 1]);
    }
}

proof fn lemma_pocket_both(a: Seq<char>, c: Seq<char>, p: int)
    ensures
        pocket_of(a + c, p) == pocket_of(a, p) + pocket_of(c, p),
{
    lemma_pocket_concat(a, c, p, c.len());
}

proof fn lemma_pocket_repeated(ch: char, m: nat, p: int, n: nat)
    requires
        n <= m,
        0 <= p < 12,
    ensures
        pocket_count(repeated(ch, m), p, n) == (if letter(ch) == Some(Piece(p as u8)) {
            n
        } else {
            0
        }),
    decreases n,
{
    if n > 0 {
        lemma_pocket_repeated(ch, m, p, (n - 1) as nat);
    }
}

/// The letters of a pocket, counted.
proof fn lemma_pocket(st: StateInfo, c: Color, p: int)
    requires
        0 <= p < 12,
    ensures
        pocket_of(pocket_text(st, c), p) == (if 6 * c.idx() <= p < 6 * c.idx() + 5 {
            st.hand@[c.idx() as int]@[p - 6 * c.idx()] as nat
        } else {
            0
        }),
        plain(pocket_text(st, c)),
        forall|i: int| 0 <= i < pocket_text(st, c).len() ==> pocket_text(st, c)[i] != ']',
{
    let h = st.hand@[c.idx() as int]@;
    let q = repeated(Piece::make(c, PieceType::Queen).to_char(), h[4] as nat);
    let r = repeated(Piece::make(c, PieceType::Rook).to_char(), h[3] as nat);
    let b = repeated(Piece::make(c, PieceType::Bishop).to_char(), h[2] as nat);
    let n = repeated(Piece::make(c, PieceType::Knight).to_char(), h[1] as nat);
    let w = repeated(Piece::make(c, PieceType::Pawn).to_char(), h[0] as nat);
    lemma_pocket_both(q, r, p);
    lemma_pocket_both(q + r, b, p);
    lemma_pocket_both(q + r + b, n, p);
    lemma_pocket_both(q + r + b + n, w, p);
    lemma_pocket_repeated(Piece::make(c, PieceType::Queen).to_char(), h[4] as nat, p, h[4] as nat);
    lemma_pocket_repeated(Piece::make(c, PieceType::Rook).to_char(), h[3] as nat, p, h[3] as nat);
    lemma_pocket_repeated(Piece::make(c, PieceType::Bishop).to_char(), h[2] as nat, p, h[2] as nat);
    lemma_pocket_repeated(Piece::make(c, PieceType::Knight).to_char(), h[1] as nat, p, h[1] as nat);
    lemma_pocket_repeated(Piece::make(c, PieceType::Pawn).to_char(), h[0] as nat, p, h[0] as nat);
}

/// The pocket read from the placement field.
proof fn lemma_pocket_field(rows: Seq<char>, pocket: Seq<char>)
    requires
        plain(rows),
        plain(pocket),
        forall|i: int| 0 <= i < pocket.len() ==> pocket[i] != ']',
    ensures
        ({
            let f = rows + (seq!['['] + pocket + seq![']']);
            &&& find_from(f, '[', 0) == rows.len()
            &&& f.subrange(0, rows.len() as int) == rows
            &&& trim_end(f.skip(rows.len() as int + 1), ']') == pocket
            &&& solid(f)
        }),
{
    let f = rows + (seq!['['] + pocket + seq![']']);
    assert(f[rows.len() as int] == '[');
    assert forall|j: int| 0 <= j < rows.len() implies f[j] != '[' by {
        assert(f[j] == rows[j]);
    }
    lemma_find(f, '[', rows.len() as int, 0);
    assert(f.subrange(0, rows.len() as int) =~= rows);
    let t = f.skip(rows.len() as int + 1);
    assert(t =~= pocket.push(']'));
    assert(t.drop_last() =~= pocket);
    assert(trim_end(pocket, ']') == pocket);
    assert forall|i: int| 0 <= i < f.len() implies !is_space(#[trigger] f[i]) by {
        if i < rows.len() {
            assert(f[i] == rows[i]);
        } else if i > rows.len() && i < rows.len() + 1 + pocket.len() {
            assert(f[i] == pocket[i - rows.len() - 1]);
        }
    }
}

// Castling

proof fn lemma_castling_shift(b: Board, s: Seq<char>, k: int, j: int, x: Castling)
    requires
        0 <= k <= s.len(),
        0 <= j <= s.len() - k,
    ensures
        castling_from(b, s, k + j, x) == castling_from(b, s.skip(k), j, x),
    decreases s.len() - k - j,
{
    let t = s.skip(k);
    if j < t.len() {
        assert(t[j] == s[k + j]);
        let y = if t[j] == '-' {
            x
        } else {
            match castling_rook(b, t[j]) {
                Some(r) => with_right(b, x, castling_color(t[j]), r),
                None => x,
            }
        };
        lemma_castling_shift(b, s, k, j + 1, y);
    }
}

proof fn lemma_castling_split(b: Board, a: Seq<char>, c: Seq<char>, x: Castling)
    requires
        a.len() <= 1,
    ensures
        castling_from(b, a + c, 0, x) == castling_from(b, c, 0, castling_from(b, a, 0, x)),
{
    let s = a + c;
    if a.len() == 0 {
        assert(s =~= c);
    } else {
        assert(s[0] == a[0]);
        let y = if a[0] == '-' {
            x
        } else {
            match castling_rook(b, a[0]) {
                Some(r) => with_right(b, x, castling_color(a[0]), r),
                None => x,
            }
        };
        assert(castling_from(b, a, 1, y) == y);
        lemma_castling_shift(b, s, 1, 0, y);
        assert(s.skip(1) =~= c);
    }
}

/// Castling kings and rooks stand on their back rank, rooks outermost unless the game is
/// Chess960: a right is written with the side alone, and read as that of the outermost rook.
pub open spec fn castling_writable(v: PosView) -> bool {
    forall|cr: u8|
        single_right(cr) && #[trigger] v.has_right(cr) ==> {
            let c = right_color(cr);
            let r = v.rooks[cr as int] as int;
            &&& relative_rank(c, v.ksq(c) as u8) == 0
            &&& relative_rank(c, r as u8) == 0
            &&& v.chess960 || outermost(v.board, c, v.ksq(c), r)
        }
}

/// No rook of the colour stands on the back rank beyond `r`, as the king on `k` sees it.
pub open spec fn outermost(b: Board, c: Color, k: int, r: int) -> bool {
    let first = relative_square(c, 0) as int;
    if r > k {
        forall|x: int| r < x <= first + 7 ==> #[trigger] b[x] != rook(c)
    } else {
        forall|x: int| first <= x < r ==> #[trigger] b[x] != rook(c)
    }
}

/// The outermost rook is the one found from the corner.
proof fn lemma_found_down(b: Board, c: Color, k: int, r: int, s: int)
    requires
        k < r <= s,
        b[r] == rook(c),
        forall|x: int| r < x <= s ==> #[trigger] b[x] != rook(c),
    ensures
        rook_down(b, rook(c), k, s) == Some(r),
    decreases s - r,
{
    if r < s {
        assert(b[s] != rook(c));
        lemma_found_down(b, c, k, r, s - 1);
    }
}

proof fn lemma_found_up(b: Board, c: Color, k: int, r: int, s: int)
    requires
        s <= r < k,
        b[r] == rook(c),
        forall|x: int| s <= x < r ==> #[trigger] b[x] != rook(c),
    ensures
        rook_up(b, rook(c), k, s) == Some(r),
    decreases r - s,
{
    if s < r {
        assert(b[s] != rook(c));
        lemma_found_up(b, c, k, r, s + 1);
    }
}

/// Reading one written right.
proof fn lemma_right(v: PosView, cr: u8, named: char, white: bool, x: Castling)
    requires
        v.wf(),
        castling_writable(v),
        v.variant.castling_allowed(),
        x.rooks.len() == 16,
        (cr == 1 && named == 'K' && white) || (cr == 2 && named == 'Q' && white) || (cr == 4
            && named == 'k' && !white) || (cr == 8 && named == 'q' && !white),
    ensures
        ({
            let y = castling_from(v.board, right_text(v, cr, named, white), 0, x);
            &&& right_text(v, cr, named, white).len() <= 1
            &&& y.rights == (if v.has_right(cr) {
                x.rights | cr
            } else {
                x.rights
            })
            &&& y.rooks == (if v.has_right(cr) {
                x.rooks.update(cr as int, v.rooks[cr as int])
            } else {
                x.rooks
            })
        }),
{
    let t = right_text(v, cr, named, white);
    if v.has_right(cr) {
        assert(v.right_ok(cr));
        let c = right_color(cr);
        let k = v.ksq(c);
        let r = v.rooks[cr as int] as int;
        let ch = t[0];
        assert(relative_rank(c, r as u8) == 0);
        assert(relative_rank(c, k as u8) == 0);
        assert(castling_color(ch) == c);
        assert(ch != '-');
        if !v.chess960 {
            let first = relative_square(c, 0) as int;
            assert(first <= r < first + 8 && first <= k < first + 8);
            if r > k {
                lemma_found_down(v.board, c, k, r, first + 7);
            } else {
                lemma_found_up(v.board, c, k, r, first);
            }
        }
        assert(castling_rook(v.board, ch) == Some(r));
        let y = with_right(v.board, x, c, r);
        assert(castling_right(c, r > k) == cr);
        assert(castling_from(v.board, t, 1, y) == y);
    }
}

proof fn bv_rights_parts(r: u8)
    by (bit_vector)
    requires
        r < 16,
    ensures
        r & 1 == 0 || r & 1 == 1,
        r & 2 == 0 || r & 2 == 2,
        r & 4 == 0 || r & 4 == 4,
        r & 8 == 0 || r & 8 == 8,
        (r & 1) | (r & 2) | (r & 4) | (r & 8) == r,
        r != 0 ==> r & 1 != 0 || r & 2 != 0 || r & 4 != 0 || r & 8 != 0,
        0u8 | 0u8 == 0u8,
        0u8 | 1u8 == 1u8,
        forall|a: u8| #[trigger] (a | 0u8) == a,
{
}

/// Reading the written castling rights.
proof fn lemma_castling(v: PosView)
    requires
        v.wf(),
        castling_writable(v),
        v.variant.castling_allowed(),
    ensures
        ({
            let y = castling_from(v.board, castling_text(v), 0, no_castling());
            &&& y.rights == v.st().castling_rights
            &&& forall|cr: u8|
                single_right(cr) && #[trigger] v.has_right(cr) ==> y.rooks[cr as int]
                    == v.rooks[cr as int]
        }),
        castling_text(v).len() > 0,
        solid(castling_text(v)),
{
    let b = v.board;
    let x0 = no_castling();
    let rights = v.st().castling_rights;
    bv_rights_parts(rights);
    if rights == 0 {
        let t = castling_text(v);
        assert(t[0] == '-');
        assert(castling_from(b, t, 1, x0) == x0);
        assert forall|cr: u8| single_right(cr) implies !v.has_right(cr) by {
            assert(0u8 & cr == 0) by (bit_vector);
        }
    } else {
        let t1 = right_text(v, 1, 'K', true);
        let t2 = right_text(v, 2, 'Q', true);
        let t4 = right_text(v, 4, 'k', false);
        let t8 = right_text(v, 8, 'q', false);
        lemma_right(v, 1, 'K', true, x0);
        let x1 = castling_from(b, t1, 0, x0);
        lemma_right(v, 2, 'Q', true, x1);
        let x2 = castling_from(b, t2, 0, x1);
        lemma_right(v, 4, 'k', false, x2);
        let x3 = castling_from(b, t4, 0, x2);
        lemma_right(v, 8, 'q', false, x3);
        let x4 = castling_from(b, t8, 0, x3);
        let t = castling_text(v);
        assert(t =~= t1 + (t2 + (t4 + t8)));
        lemma_castling_split(b, t1, t2 + (t4 + t8), x0);
        lemma_castling_split(b, t2, t4 + t8, x1);
        lemma_castling_split(b, t4, t8, x2);
        assert(castling_from(b, t, 0, x0) == x4);
        assert(solid(t1) && solid(t2) && solid(t4) && solid(t8));
    }
}

// The three-check field

proof fn lemma_checks(a: int, c: int)
    requires
        0 <= a <= 3,
        0 <= c <= 3,
    ensures
        ({
            let s = decimal_int(3 - a) + seq!['+'] + decimal_int(3 - c);
            &&& checks_of(s) == (a, c)
            &&& solid(s)
            &&& find_from(s, '+', 0) < s.len()
        }),
{
    let s = decimal_int(3 - a) + seq!['+'] + decimal_int(3 - c);
    let d = digit_char((3 - a) as nat);
    let e = digit_char((3 - c) as nat);
    assert(decimal_int(3 - a) =~= seq![d]);
    assert(decimal_int(3 - c) =~= seq![e]);
    assert(s =~= seq![d, '+', e]);
    assert(is_digit(d) && is_digit(e));
    lemma_number((3 - a) as nat);
    lemma_number((3 - c) as nat);
    let none = Seq::<char>::empty();
    assert(none.push(d) =~= seq![d]);
    assert(none.push(e) =~= seq![e]);
    assert(natural(seq![d], 255) == Some(3 - a));
    assert(natural(seq![e], 255) == Some(3 - c));
    assert(plus_numbers(s, 3, seq![e]) =~= seq![3 - c]);
    assert(plus_numbers(s, 2, none) == plus_numbers(s, 3, seq![e]));
    assert(plus_numbers(s, 1, seq![d]) =~= seq![3 - a, 3 - c]);
    assert(plus_numbers(s, 0, none) == plus_numbers(s, 1, seq![d]));
    lemma_find(s, '+', 1, 0);
}

// The whole text

/// What a FEN text keeps of a position.
pub open spec fn tells(s: Setup, v: PosView) -> bool {
    &&& s.board == v.board
    &&& s.stm == v.stm
    &&& s.castling.rights == v.st().castling_rights
    &&& forall|cr: u8|
        single_right(cr) && #[trigger] v.has_right(cr) ==> s.castling.rooks[cr as int]
            == v.rooks[cr as int]
    &&& s.ep == v.st().ep_square
    &&& s.rule50 == v.st().rule50
    &&& s.game_ply == kept_ply(v)
    &&& ply_fits(v) ==> s.game_ply == v.game_ply
    &&& s.marks == v.st().promoted
    &&& s.checks == (if v.variant == Variant::ThreeCheck {
        (v.st().checks_given@[0] as int, v.st().checks_given@[1] as int)
    } else {
        (0, 0)
    })
    &&& forall|c: int, p: int|
        #![trigger v.st().hand@[c]@[p]]
        0 <= c < 2 && 0 <= p < 5 ==> pocket_of(s.pocket, 6 * c + p) == (if v.variant
            == Variant::Crazyhouse {
            v.st().hand@[c]@[p] as int
        } else {
            0
        })
}

/// The ply count a text keeps: that of the game, or one less or more while a pass is
/// pending.
pub open spec fn kept_ply(v: PosView) -> int {
    2 * (move_number(v) - 1) + (if v.stm == Color::Black {
        1int
    } else {
        0
    })
}

/// The move counter counts from the start of the game.
pub open spec fn ply_known(v: PosView) -> bool {
    0 <= v.game_ply <= i32::MAX
}

/// The six fields every text has.
pub open spec fn six_fields(v: PosView) -> Seq<Seq<char>> {
    seq![
        placement_text(v),
        side_text(v),
        castling_text(v),
        square_text(v.st().ep_square as int),
        decimal_int(v.st().rule50 as int),
        decimal_int(move_number(v)),
    ]
}

pub open spec fn checks_field(v: PosView) -> Seq<char> {
    decimal_int(3 - v.st().checks_given@[0]) + seq!['+'] + decimal_int(
        3 - v.st().checks_given@[1],
    )
}

/// Plies count from the start of the game, White on the even ones.
pub open spec fn ply_fits(v: PosView) -> bool {
    &&& 0 <= v.game_ply <= i32::MAX
    &&& v.game_ply % 2 == (if v.stm == Color::White {
        0int
    } else {
        1
    })
}

/// The placement field: where its pocket begins, and what it holds.
proof fn lemma_placement(v: PosView)
    requires
        v.wf(),
        v.marks_ok(),
    ensures
        ({
            let f = placement_text(v);
            let cut = find_from(f, '[', 0);
            &&& f.len() > 0
            &&& solid(f)
            &&& place_from(f.subrange(0, cut), 0, start_placing()) matches Ok(p) && p.board
                == v.board && p.marks == v.st().promoted
            &&& v.variant == Variant::Crazyhouse ==> cut < f.len() && trim_end(
                f.skip(cut + 1),
                ']',
            ) == pocket_text(v.st(), Color::White) + pocket_text(v.st(), Color::Black)
        }),
{
    let marks = v.st().promoted;
    let rows = rows_text(v.board, marks, 7);
    lemma_board(v.board, marks);
    lemma_rows_plain(v.board, marks, 7);
    if v.variant == Variant::Crazyhouse {
        let w = pocket_text(v.st(), Color::White);
        let b = pocket_text(v.st(), Color::Black);
        lemma_pocket(v.st(), Color::White, 0);
        lemma_pocket(v.st(), Color::Black, 0);
        lemma_pocket_field(rows, w + b);
        assert(placement_text(v) =~= rows + (seq!['['] + (w + b) + seq![']']));
    } else {
        assert(placement_text(v) =~= rows);
        lemma_find(rows, '[', rows.len() as int, 0);
        assert(rows.subrange(0, rows.len() as int) =~= rows);
    }
}

/// The pockets read back.
proof fn lemma_pockets(v: PosView)
    requires
        v.wf(),
    ensures
        ({
            let s = pocket_text(v.st(), Color::White) + pocket_text(v.st(), Color::Black);
            &&& !pocket_too_full(s)
            &&& forall|c: int, p: int|
                0 <= c < 2 && 0 <= p < 5 ==> #[trigger] v.st().hand@[c]@[p] == pocket_of(
                    s,
                    6 * c + p,
                )
        }),
{
    let w = pocket_text(v.st(), Color::White);
    let b = pocket_text(v.st(), Color::Black);
    let s = w + b;
    assert forall|p: int| 0 <= p < 12 && p != 5 && p != 11 implies pocket_of(s, p) <= 16 by {
        lemma_pocket_both(w, b, p);
        lemma_pocket(v.st(), Color::White, p);
        lemma_pocket(v.st(), Color::Black, p);
        if p < 5 {
            assert(v.st().hand@[0]@[p] <= 16);
        } else {
            assert(v.st().hand@[1]@[p - 6] <= 16);
        }
    }
    assert forall|c: int, p: int| 0 <= c < 2 && 0 <= p < 5 implies #[trigger] v.st().hand@[c]@[p]
        == pocket_of(s, 6 * c + p) by {
        lemma_pocket_both(w, b, 6 * c + p);
        lemma_pocket(v.st(), Color::White, 6 * c + p);
        lemma_pocket(v.st(), Color::Black, 6 * c + p);
    }
}

/// The fields other than the placement.
proof fn lemma_small_fields(v: PosView)
    requires
        v.wf(),
        castling_writable(v),
        ply_known(v),
    ensures
        forall|i: int| 1 <= i < 6 ==> (#[trigger] six_fields(v)[i]).len() > 0 && solid(
            six_fields(v)[i],
        ),
        forall|i: int| 3 <= i < 6 ==> find_from(#[trigger] six_fields(v)[i], '+', 0) == six_fields(
            v,
        )[i].len(),
        integer(six_fields(v)[4]) == Some(v.st().rule50 as int),
        integer(six_fields(v)[5]) == Some(move_number(v)),
        1 <= move_number(v),
        kept_ply(v) <= i32::MAX,
        ply_fits(v) ==> kept_ply(v) == v.game_ply,
{
    let f = six_fields(v);
    let e = v.st().ep_square as int;
    assert(solid(f[1]));
    assert(f[2].len() > 0 && solid(f[2])) by {
        if v.variant.castling_allowed() {
            lemma_castling(v);
        } else {
            assert(v.st().castling_rights == 0);
        }
    }
    assert(f[3].len() > 0 && solid(f[3]));
    lemma_find(f[3], '+', f[3].len() as int, 0);
    lemma_integer(v.st().rule50 as int);
    lemma_find(f[4], '+', f[4].len() as int, 0);
    assert(1 <= move_number(v) <= i32::MAX);
    lemma_integer(move_number(v));
    lemma_find(f[5], '+', f[5].len() as int, 0);
}

/// The text falls into its fields.
proof fn lemma_fen_fields(v: PosView)
    requires
        v.wf(),
        v.marks_ok(),
        castling_writable(v),
        ply_known(v),
    ensures
        fields(fen_text(v)) == (if v.variant == Variant::ThreeCheck {
            six_fields(v).insert(4, checks_field(v))
        } else {
            six_fields(v)
        }),
{
    let f = six_fields(v);
    let gap = seq![' '];
    lemma_placement(v);
    lemma_small_fields(v);
    assert(f[1].len() > 0 && f[2].len() > 0 && f[3].len() > 0 && f[4].len() > 0 && f[5].len() > 0);
    lemma_only_field(f[0]);
    let t1 = f[0] + gap + f[1];
    lemma_field_after(f[0], f[1]);
    let t2 = t1 + gap + f[2];
    lemma_field_after(t1, f[2]);
    let t3 = t2 + gap + f[3];
    lemma_field_after(t2, f[3]);
    assert(fields(t3) =~= seq![f[0], f[1], f[2], f[3]]);
    let t4 = t3 + checks_text(v);
    if v.variant == Variant::ThreeCheck {
        let c = checks_field(v);
        lemma_checks(v.st().checks_given@[0] as int, v.st().checks_given@[1] as int);
        lemma_field_after(t3, c);
        assert(t4 =~= t3 + gap + c);
        assert(fields(t4) =~= seq![f[0], f[1], f[2], f[3], c]);
    } else {
        assert(t4 =~= t3);
    }
    let t5 = t4 + gap + f[4];
    lemma_field_after(t4, f[4]);
    lemma_field_after(t5, f[5]);
    assert(fen_text(v) == t5 + gap + f[5]);
    if v.variant == Variant::ThreeCheck {
        assert(fields(fen_text(v)) =~= f.insert(4, checks_field(v)));
    } else {
        assert(fields(fen_text(v)) =~= f);
    }
}

/// The position the fields describe.
proof fn lemma_setup(v: PosView, checks: (int, int))
    requires
        v.wf(),
        v.marks_ok(),
        castling_writable(v),
        ply_known(v),
        v.variant == Variant::ThreeCheck ==> checks == (
            v.st().checks_given@[0] as int,
            v.st().checks_given@[1] as int,
        ),
    ensures
        setup_of(six_fields(v), checks, v.variant) matches Ok(s) && tells(s, v),
{
    let f = six_fields(v);
    let b = v.board;
    reveal_strlit("w");
    reveal_strlit("b");
    reveal_strlit("-");
    lemma_placement(v);
    lemma_small_fields(v);
    if v.variant == Variant::Crazyhouse {
        lemma_pockets(v);
    }
    if v.variant.royal_king() {
        lemma_one_king(b, Color::White);
        lemma_one_king(b, Color::Black);
    }
    assert(f[1] == "w"@ <==> v.stm == Color::White) by {
        if v.stm == Color::White {
            assert(f[1] =~= "w"@);
        } else {
            assert(f[1][0] == 'b');
            assert("w"@[0] == 'w');
        }
    }
    assert(f[1] == "b"@ <==> v.stm == Color::Black) by {
        if v.stm == Color::Black {
            assert(f[1] =~= "b"@);
        } else {
            assert(f[1][0] == 'w');
            assert("b"@[0] == 'b');
        }
    }
    if v.variant.castling_allowed() {
        lemma_castling(v);
    } else {
        assert forall|cr: u8| single_right(cr) implies !v.has_right(cr) by {
            assert(0u8 & cr == 0) by (bit_vector);
        }
    }
    let e = v.st().ep_square as int;
    if e == 64 {
        assert(f[3] =~= "-"@);
    } else {
        assert(f[3].len() == 2);
        assert("-"@.len() == 1);
        square_text_round_trip(e);
        assert(ep_kept(b, v.stm, e));
    }
}

/// A position written as FEN text and read again has the same board, side to move, castling
/// rights and rooks, en passant square, counters, promoted pieces and, where its variant has
/// them, checks and pockets; while a pass is pending the ply count is the nearest one that
/// fits the side to move. Rights have to be told by the corner rooks (or files, in
/// Chess960), plies counted from the start of the game, and marks put on pieces.
pub proof fn written_positions_read_back(v: PosView)
    requires
        v.wf(),
        v.marks_ok(),
        castling_writable(v),
        ply_known(v),
    ensures
        parse(fen_text(v), v.variant) matches Ok(s) && tells(s, v),
{
    let f = six_fields(v);
    lemma_fen_fields(v);
    lemma_small_fields(v);
    if v.variant == Variant::ThreeCheck {
        let c = checks_field(v);
        let all = f.insert(4, c);
        lemma_checks(v.st().checks_given@[0] as int, v.st().checks_given@[1] as int);
        assert(all[3] == f[3] && all[4] == c);
        assert(plus_field(all, 4) == 4);
        assert(plus_field(all, 3) == 4);
        assert(all.remove(4) =~= f);
        lemma_setup(v, checks_of(c));
    } else {
        assert(plus_field(f, 6) == 6);
        assert(plus_field(f, 5) == 6);
        assert(plus_field(f, 4) == 6);
        assert(plus_field(f, 3) == 6);
        lemma_setup(v, (0, 0));
    }
}

impl PosView {
    /// Checks are counted in three-check only, and pockets are filled in Crazyhouse only.
    pub open spec fn variant_state_ok(self) -> bool {
        &&& self.variant != Variant::ThreeCheck ==> self.st().checks_given@[0] == 0
            && self.st().checks_given@[1] == 0
        &&& self.variant != Variant::Crazyhouse ==> forall|c: int, p: int|
            0 <= c < 2 && 0 <= p < 5 ==> #[trigger] self.st().hand@[c]@[p] == 0
    }
}

/// Moves leave the state of other variants alone.
pub proof fn moves_keep_variant_state(v: PosView, m: Move, gives_check: bool, w: PosView)
    requires
        v.pseudo(m),
        v.made(m, gives_check, w),
        v.variant_state_ok(),
    ensures
        w.variant_state_ok(),
{
    assert forall|c: int, p: int|
        v.variant != Variant::Crazyhouse && 0 <= c < 2 && 0 <= p < 5 implies #[trigger]
        w.st().hand@[c]@[p] == 0 by {
        assert(v.st().hand@[c]@[p] == 0);
        assert(w.st().hand@[c]@[p] == v.hand_after(m, c, p));
    }
}

/// Passing leaves the state of other variants alone.
pub proof fn passing_keeps_variant_state(v: PosView, w: PosView)
    requires
        v.passed(w),
        v.variant_state_ok(),
    ensures
        w.variant_state_ok(),
{
    assert forall|c: int, p: int|
        v.variant != Variant::Crazyhouse && 0 <= c < 2 && 0 <= p < 5 implies #[trigger]
        w.st().hand@[c]@[p] == 0 by {
        assert(v.st().hand@[c]@[p] == 0);
    }
}

/// A position read from a text has no state of other variants.
pub proof fn read_positions_have_variant_state(t: Seq<char>, variant: Variant, s: Setup, w: PosView)
    requires
        parse(t, variant) == Ok::<Setup, FenError>(s),
        describes(s, variant, w),
    ensures
        w.variant_state_ok(),
{
    assert forall|c: int, p: int|
        variant != Variant::Crazyhouse && 0 <= c < 2 && 0 <= p < 5 implies #[trigger]
        w.st().hand@[c]@[p] == 0 by {
        assert(s.pocket =~= seq![]);
        assert(pocket_of(s.pocket, 6 * c + p) == 0);
    }
}

/// A position written as FEN text and read again has the same key, with a pass pending or
/// not.
pub proof fn read_positions_keep_their_key(v: PosView, s: Setup, w: PosView)
    requires
        v.wf(),
        v.marks_ok(),
        castling_writable(v),
        v.variant_state_ok(),
        ply_known(v),
        v.keys_match(),
        parse(fen_text(v), v.variant) == Ok::<Setup, FenError>(s),
        describes(s, v.variant, w),
    ensures
        w.st().key == v.st().key,
        w.board == v.board,
        w.stm == v.stm,
        w.st().rule50 == v.st().rule50,
        w.st().checks_given@ == v.st().checks_given@,
        forall|c: int, p: int|
            0 <= c < 2 && 0 <= p < 5 ==> #[trigger] w.st().hand@[c]@[p] == v.st().hand@[c]@[p],
{
    written_positions_read_back(v);
    assert forall|c: int, p: int| 0 <= c < 2 && 0 <= p < 5 implies #[trigger] w.st().hand@[c]@[p]
        == v.st().hand@[c]@[p] by {
        assert(pocket_of(s.pocket, 6 * c + p) == v.st().hand@[c]@[p]);
    }
    assert(w.st().checks_given@ =~= v.st().checks_given@);
    assert forall|q: int| 0 <= q < 5 implies v.st().hand@[0]@[q] == w.st().hand@[0]@[q]
        && v.st().hand@[1]@[q] == w.st().hand@[1]@[q] by {
        assert(w.st().hand@[0]@[q] == v.st().hand@[0]@[q]);
        assert(w.st().hand@[1]@[q] == v.st().hand@[1]@[q]);
    }
    lemma_pocket_same(v.st(), w.st(), 0, 5);
    lemma_pocket_same(v.st(), w.st(), 1, 5);
    assert(variant_key(w.st()) == variant_key(v.st()));
    assert(full_key(w.board, w.stm, w.st()) == full_key(v.board, v.stm, v.st()));
}

/// A position written as FEN text and read again is evaluated as before, whatever the game
/// that led to it and with a pass pending or not: `a` is the network's state of the game,
/// `b` one of the position read.
pub proof fn read_positions_keep_their_evaluation(
    v: PosView,
    s: Setup,
    w: PosView,
    net: &Network,
    a: &NnueState,
    b: &NnueState,
)
    requires
        v.wf(),
        v.marks_ok(),
        castling_writable(v),
        v.variant_state_ok(),
        ply_known(v),
        v.keys_match(),
        parse(fen_text(v), v.variant) == Ok::<Setup, FenError>(s),
        describes(s, v.variant, w),
        a.wf(net),
        b.wf(net),
        a.stack@.last().snap.board@ == v.board,
        b.stack@.last().snap.board@ == w.board,
        a.stack@.last().snap.kings@ == b.stack@.last().snap.kings@,
    ensures
        w.evaluation(
            network_value(
                net,
                b.stack@.last().snap,
                w.stm,
                size(occ(w.board)) as i32,
            ) as int,
        ) == v.evaluation(
            network_value(
                net,
                a.stack@.last().snap,
                v.stm,
                size(occ(v.board)) as i32,
            ) as int,
        ),
{
    read_positions_keep_their_key(v, s, w);
    evaluation_is_path_independent(net, a, b, v.stm, size(occ(v.board)) as i32);
    let (h, g) = (v.st().hand@, w.st().hand@);
    assert(hand_score(w, Color::White) == hand_score(v, Color::White)) by {
        assert(g[0]@[0] == h[0]@[0] && g[0]@[1] == h[0]@[1] && g[0]@[2] == h[0]@[2] && g[0]@[3]
            == h[0]@[3] && g[0]@[4] == h[0]@[4]);
    }
    assert(hand_score(w, Color::Black) == hand_score(v, Color::Black)) by {
        assert(g[1]@[0] == h[1]@[0] && g[1]@[1] == h[1]@[1] && g[1]@[2] == h[1]@[2] && g[1]@[3]
            == h[1]@[3] && g[1]@[4] == h[1]@[4]);
    }
    assert(w.insufficient() == v.insufficient());
    assert(w.own_evaluation() == v.own_evaluation());
}

} // verus!
