//! Text output: squares, moves, FEN and board diagrams.

use vstd::prelude::*;

use crate::bitboard::test_bit;
use crate::bits::{group_has, holds};
use crate::fenread::{read_square, slice_of, space};
use crate::fenspec::{is_space, square_named};
use crate::geometry::on_board;
use crate::legality::lemma_castling_places;
use crate::movegen::{generate_legal, tested};
use crate::moves::lemma_adds_contains;
use crate::position::Position;
use crate::rules::{castling_right, king, lemma_occ, rook, single_right, Board, PosView};
use crate::state::StateInfo;
use crate::text::{
    chars_of, decimal_int, digit_char, hex_text, push_char, push_hex, push_integer, push_text,
    to_upper, upper,
};
use crate::types::{
    file, file_of, make_square, rank, rank_of, Bitboard, Color, Move, MoveList, Piece, PieceType,
    Square, BLACK_OO, BLACK_OOO, WHITE_OO, WHITE_OOO,
};
use crate::variant::Variant;

verus! {

broadcast use {group_has, lemma_occ};

// Squares

/// The name of a square, `-` for none.
pub open spec fn square_text(s: int) -> Seq<char> {
    if s >= 64 {
        seq!['-']
    } else {
        seq![('a' as int + file(s)) as char, ('1' as int + rank(s)) as char]
    }
}

/// Appends the name of a square.
pub(crate) fn push_square(s: &mut String, sq: Square)
    ensures
        final(s)@ == old(s)@ + square_text(sq as int),
{
    let ghost before = s@;
    if sq >= 64 {
        push_char(s, '-');
    } else {
        push_char(s, (97u8 + file_of(sq)) as char);
        push_char(s, (49u8 + rank_of(sq)) as char);
    }
    assert(s@ =~= before + square_text(sq as int));
}

/// The name of a square, `-` for none.
pub fn square_to_string(sq: Square) -> (r: String)
    ensures
        r@ == square_text(sq as int),
{
    let mut s = String::new();
    push_square(&mut s, sq);
    assert(s@ =~= square_text(sq as int));
    s
}

/// The square a text starts with the name of.
pub fn square_from_str(s: &str) -> (r: Option<Square>)
    ensures
        match square_named(s@) {
            Some(e) => r == Some(e as Square) && 0 <= e < 64,
            None => r is None,
        },
{
    let v = chars_of(s);
    read_square(&v)
}

/// Reading the name of a square gives the square back.
pub proof fn square_text_round_trip(s: int)
    requires
        on_board(s),
    ensures
        square_named(square_text(s)) == Some(s),
{
}

// Moves

impl Move {
    /// Where the king of a castling move ends up, for castling written as a king move.
    pub open spec fn uci_to(self, chess960: bool) -> int {
        if self.is_castling() && !chess960 {
            rank(self.from()) * 8 + if self.to() > self.from() {
                6int
            } else {
                2
            }
        } else {
            self.to()
        }
    }

    /// UCI notation of a move.
    pub open spec fn uci_text(self, chess960: bool) -> Seq<char> {
        if self.0 == 0 || self == Move::null() {
            seq!['0', '0', '0', '0']
        } else if self.is_drop() {
            seq![upper(self.drop_piece().to_char()), '@'] + square_text(self.to())
        } else {
            square_text(self.from()) + square_text(self.uci_to(chess960)) + (if self.is_promotion() {
                seq![self.promotion().to_char()]
            } else {
                seq![]
            })
        }
    }

    /// UCI notation. Castling is stored as king-takes-rook, so for standard chess the
    /// king's real destination is printed; `chess960` prints the rook square instead.
    pub fn to_uci(self, chess960: bool) -> (r: String)
        ensures
            r@ == self.uci_text(chess960),
    {
        let mut s = String::new();
        if self.is_none() || self == Move::null() {
            push_char(&mut s, '0');
            push_char(&mut s, '0');
            push_char(&mut s, '0');
            push_char(&mut s, '0');
            assert(s@ =~= self.uci_text(chess960));
            return s;
        }
        if self.is_drop() {
            push_char(&mut s, to_upper(self.drop_piece().to_char()));
            push_char(&mut s, '@');
            push_square(&mut s, self.to_sq());
            assert(s@ =~= self.uci_text(chess960));
            return s;
        }
        let from = self.from_sq();
        let mut to = self.to_sq();
        if self.is_castling() && !chess960 {
            to = make_square(
                if to > from {
                    6
                } else {
                    2
                },
                rank_of(from),
            );
        }
        push_square(&mut s, from);
        push_square(&mut s, to);
        if self.is_promotion() {
            push_char(&mut s, self.promotion().to_char());
        }
        assert(s@ =~= self.uci_text(chess960));
        s
    }
}

// FEN

/// A run of empty squares.
pub open spec fn gap_text(n: int) -> Seq<char> {
    if n > 0 {
        seq![digit_char(n as nat)]
    } else {
        seq![]
    }
}

/// The piece on `s`, marked where it is a promoted one.
pub open spec fn piece_text(b: Board, marks: u64, s: int) -> Seq<char> {
    seq![b[s].to_char()] + (if holds(marks, s) {
        seq!['~']
    } else {
        seq![]
    })
}

/// The rest of rank `r` from file `f` on, after `gap` empty squares.
pub open spec fn row_text(b: Board, marks: u64, r: int, f: int, gap: int) -> Seq<char>
    decreases 8 - f,
{
    if f >= 8 {
        gap_text(gap)
    } else if b[8 * r + f].0 == 12 {
        row_text(b, marks, r, f + 1, gap + 1)
    } else {
        gap_text(gap) + piece_text(b, marks, 8 * r + f) + row_text(b, marks, r, f + 1, 0)
    }
}

/// The ranks from `r` down to the first.
pub open spec fn rows_text(b: Board, marks: u64, r: int) -> Seq<char>
    decreases r,
{
    row_text(b, marks, r, 0, 0) + (if r <= 0 {
        seq![]
    } else {
        seq!['/'] + rows_text(b, marks, r - 1)
    })
}

/// A character `n` times.
pub open spec fn repeated(c: char, n: nat) -> Seq<char> {
    Seq::new(n, |i: int| c)
}

/// The pocket of `c`, queens first.
pub open spec fn pocket_text(st: StateInfo, c: Color) -> Seq<char> {
    let h = st.hand@[c.idx() as int]@;
    repeated(Piece::make(c, PieceType::Queen).to_char(), h[4] as nat) + repeated(
        Piece::make(c, PieceType::Rook).to_char(),
        h[3] as nat,
    ) + repeated(Piece::make(c, PieceType::Bishop).to_char(), h[2] as nat) + repeated(
        Piece::make(c, PieceType::Knight).to_char(),
        h[1] as nat,
    ) + repeated(Piece::make(c, PieceType::Pawn).to_char(), h[0] as nat)
}

/// One castling right: the rook's file in Chess960, else the side.
pub open spec fn right_text(v: PosView, cr: u8, named: char, white: bool) -> Seq<char> {
    if v.st().castling_rights & cr == 0 {
        seq![]
    } else if v.chess960 {
        let f = file(v.rooks[cr as int] as int);
        seq![
            if white {
                ('A' as int + f) as char
            } else {
                ('a' as int + f) as char
            },
        ]
    } else {
        seq![named]
    }
}

/// The castling field.
pub open spec fn castling_text(v: PosView) -> Seq<char> {
    if v.st().castling_rights == 0 {
        seq!['-']
    } else {
        right_text(v, WHITE_OO, 'K', true) + right_text(v, WHITE_OOO, 'Q', true) + right_text(
            v,
            BLACK_OO,
            'k',
            false,
        ) + right_text(v, BLACK_OOO, 'q', false)
    }
}

/// Half of an integer, rounded towards zero.
pub open spec fn half(n: int) -> int {
    if n >= 0 {
        n / 2
    } else {
        -((-n) / 2)
    }
}

/// The number of the move to be played.
pub open spec fn move_number(v: PosView) -> int {
    1 + half(
        v.game_ply - if v.stm == Color::Black {
            1int
        } else {
            0
        },
    )
}

/// The piece placement field, in Crazyhouse with the pockets.
pub open spec fn placement_text(v: PosView) -> Seq<char> {
    rows_text(v.board, v.st().promoted, 7) + (if v.variant == Variant::Crazyhouse {
        seq!['['] + pocket_text(v.st(), Color::White) + pocket_text(v.st(), Color::Black)
            + seq![']']
    } else {
        seq![]
    })
}

/// The side to move.
pub open spec fn side_text(v: PosView) -> Seq<char> {
    seq![
        if v.stm == Color::White {
            'w'
        } else {
            'b'
        },
    ]
}

/// The checks still to be given, in three-check.
pub open spec fn checks_text(v: PosView) -> Seq<char> {
    if v.variant == Variant::ThreeCheck {
        seq![' '] + decimal_int(3 - v.st().checks_given@[0]) + seq!['+'] + decimal_int(
            3 - v.st().checks_given@[1],
        )
    } else {
        seq![]
    }
}

/// The FEN text of a position.
pub open spec fn fen_text(v: PosView) -> Seq<char> {
    placement_text(v) + seq![' '] + side_text(v) + seq![' '] + castling_text(v) + seq![' ']
        + square_text(v.st().ep_square as int) + checks_text(v) + seq![' '] + decimal_int(
        v.st().rule50 as int,
    ) + seq![' '] + decimal_int(move_number(v))
}

/// Appends a character `n` times.
fn push_repeated(s: &mut String, c: char, n: u8)
    ensures
        final(s)@ == old(s)@ + repeated(c, n as nat),
{
    let ghost before = s@;
    let mut i: u8 = 0;
    assert(s@ =~= before + repeated(c, 0));
    while i < n
        invariant
            i <= n,
            s@ == before + repeated(c, i as nat),
        decreases n - i,
    {
        push_char(s, c);
        i += 1;
        assert(s@ =~= before + repeated(c, i as nat));
    }
}

fn push_gap(s: &mut String, n: u8)
    requires
        n <= 8,
    ensures
        final(s)@ == old(s)@ + gap_text(n as int),
{
    let ghost before = s@;
    if n > 0 {
        push_char(s, (48u8 + n) as char);
    }
    assert(s@ =~= before + gap_text(n as int));
}

impl Position {
    fn push_row(&self, s: &mut String, r: u8)
        requires
            self.wf(),
            r < 8,
        ensures
            final(s)@ == old(s)@ + row_text(self@.board, self@.st().promoted, r as int, 0, 0),
    {
        let ghost before = s@;
        let ghost b = self@.board;
        let ghost marks = self@.st().promoted;
        let marked = self.promoted();
        let mut f: u8 = 0;
        let mut gap: u8 = 0;
        while f < 8
            invariant
                gap <= f <= 8,
                r < 8,
                self.wf(),
                b == self@.board,
                marks == self@.st().promoted,
                marked == marks,
                s@ + row_text(b, marks, r as int, f as int, gap as int) == before + row_text(
                    b,
                    marks,
                    r as int,
                    0,
                    0,
                ),
            decreases 8 - f,
        {
            let ghost now = s@;
            let ghost rest = row_text(b, marks, r as int, f as int, gap as int);
            let sq = make_square(f, r);
            assert(sq == 8 * r + f);
            let pc = self.piece_on(sq);
            if pc.is_none() {
                gap += 1;
                f += 1;
            } else {
                push_gap(s, gap);
                push_char(s, pc.to_char());
                if test_bit(marked, sq) {
                    push_char(s, '~');
                }
                proof {
                    assert(s@ + row_text(b, marks, r as int, f + 1, 0) =~= now + rest);
                }
                gap = 0;
                f += 1;
            }
        }
        push_gap(s, gap);
        proof {
            assert(s@ =~= before + row_text(b, marks, r as int, 0, 0));
        }
    }

    fn push_rows(&self, s: &mut String)
        requires
            self.wf(),
        ensures
            final(s)@ == old(s)@ + rows_text(self@.board, self@.st().promoted, 7),
    {
        let ghost before = s@;
        let ghost b = self@.board;
        let ghost marks = self@.st().promoted;
        let ghost all = rows_text(b, marks, 7);
        let mut r: u8 = 7;
        while r > 0
            invariant
                r <= 7,
                self.wf(),
                b == self@.board,
                marks == self@.st().promoted,
                s@ + rows_text(b, marks, r as int) == before + all,
            decreases r,
        {
            let ghost now = s@;
            self.push_row(s, r);
            push_char(s, '/');
            proof {
                assert(s@ + rows_text(b, marks, r - 1) =~= now + rows_text(b, marks, r as int));
            }
            r = r - 1;
        }
        let ghost now = s@;
        self.push_row(s, 0);
        proof {
            assert(s@ =~= now + rows_text(b, marks, 0));
        }
    }

    fn push_pocket(&self, s: &mut String, c: Color)
        requires
            self.wf(),
        ensures
            final(s)@ == old(s)@ + pocket_text(self@.st(), c),
    {
        let ghost before = s@;
        push_repeated(
            s,
            Piece::make(c, PieceType::Queen).to_char(),
            self.hand(c, PieceType::Queen),
        );
        push_repeated(s, Piece::make(c, PieceType::Rook).to_char(), self.hand(c, PieceType::Rook));
        push_repeated(
            s,
            Piece::make(c, PieceType::Bishop).to_char(),
            self.hand(c, PieceType::Bishop),
        );
        push_repeated(
            s,
            Piece::make(c, PieceType::Knight).to_char(),
            self.hand(c, PieceType::Knight),
        );
        push_repeated(s, Piece::make(c, PieceType::Pawn).to_char(), self.hand(c, PieceType::Pawn));
        assert(s@ =~= before + pocket_text(self@.st(), c));
    }

    fn push_right(&self, s: &mut String, cr: u8, named: char, white: bool)
        requires
            self.wf(),
            cr < 16,
        ensures
            final(s)@ == old(s)@ + right_text(self@, cr, named, white),
    {
        let ghost before = s@;
        if self.castling_rights() & cr != 0 {
            if self.chess960 {
                let f = file_of(self.castling_rook_square(cr));
                push_char(
                    s,
                    if white {
                        (65u8 + f) as char
                    } else {
                        (97u8 + f) as char
                    },
                );
            } else {
                push_char(s, named);
            }
        }
        assert(s@ =~= before + right_text(self@, cr, named, white));
    }

    fn push_castling(&self, s: &mut String)
        requires
            self.wf(),
        ensures
            final(s)@ == old(s)@ + castling_text(self@),
    {
        let ghost before = s@;
        if self.castling_rights() == 0 {
            push_char(s, '-');
        } else {
            self.push_right(s, WHITE_OO, 'K', true);
            self.push_right(s, WHITE_OOO, 'Q', true);
            self.push_right(s, BLACK_OO, 'k', false);
            self.push_right(s, BLACK_OOO, 'q', false);
        }
        assert(s@ =~= before + castling_text(self@));
    }

    fn push_placement(&self, s: &mut String)
        requires
            self.wf(),
        ensures
            final(s)@ == old(s)@ + placement_text(self@),
    {
        let ghost before = s@;
        self.push_rows(s);
        if self.variant == Variant::Crazyhouse {
            push_char(s, '[');
            self.push_pocket(s, Color::White);
            self.push_pocket(s, Color::Black);
            push_char(s, ']');
        }
        assert(s@ =~= before + placement_text(self@));
    }

    fn push_checks(&self, s: &mut String)
        requires
            self.wf(),
        ensures
            final(s)@ == old(s)@ + checks_text(self@),
    {
        let ghost before = s@;
        if self.variant == Variant::ThreeCheck {
            push_char(s, ' ');
            push_integer(s, 3 - self.checks_given(Color::White) as i64);
            push_char(s, '+');
            push_integer(s, 3 - self.checks_given(Color::Black) as i64);
        }
        assert(s@ =~= before + checks_text(self@));
    }

    /// The FEN text of the position.
    pub fn fen(&self) -> (r: String)
        requires
            self.wf(),
        ensures
            r@ == fen_text(self@),
    {
        let mut s = String::new();
        self.push_placement(&mut s);
        assert(s@ =~= placement_text(self@));
        push_char(&mut s, ' ');
        push_char(
            &mut s,
            match self.side_to_move {
                Color::White => 'w',
                Color::Black => 'b',
            },
        );
        push_char(&mut s, ' ');
        self.push_castling(&mut s);
        push_char(&mut s, ' ');
        let ghost half_way = placement_text(self@) + seq![' '] + side_text(self@) + seq![' ']
            + castling_text(self@) + seq![' '];
        assert(s@ =~= half_way);
        push_square(&mut s, self.ep_square());
        self.push_checks(&mut s);
        push_char(&mut s, ' ');
        push_integer(&mut s, self.rule50_count() as i64);
        push_char(&mut s, ' ');
        let plies: i64 = self.game_ply as i64 - match self.side_to_move {
            Color::White => 0,
            Color::Black => 1,
        };
        let moves: i64 = if plies >= 0 {
            plies / 2
        } else {
            -((-plies) / 2)
        };
        push_integer(&mut s, 1 + moves);
        assert(s@ =~= fen_text(self@));
        s
    }
}

// Moves of a position

impl PosView {
    /// UCI text of a move under the rules of this position.
    pub open spec fn move_text(self, m: Move) -> Seq<char> {
        if m.is_castling() && self.king_promotions() {
            square_text(m.from()) + square_text(m.to()) + seq!['k']
        } else {
            m.uci_text(self.chess960)
        }
    }

    /// `t` names `m`: its UCI text, or castling written as king takes rook.
    pub open spec fn names(self, t: Seq<char>, m: Move) -> bool {
        self.move_text(m) == t || (self.real_castling(m) && m.uci_text(true) == t)
    }
}

/// A text without the white space around it.
pub open spec fn trimmed(s: Seq<char>) -> Seq<char>
    decreases s.len(),
{
    if s.len() == 0 {
        s
    } else if is_space(s[0]) {
        trimmed(s.skip(1))
    } else if is_space(s.last()) {
        trimmed(s.drop_last())
    } else {
        s
    }
}

/// The text without the white space around it.
pub(crate) fn trim(s: &Vec<char>) -> (r: Vec<char>)
    ensures
        r@ == trimmed(s@),
{
    let ghost all = s@;
    let mut i: usize = 0;
    let mut j: usize = s.len();
    assert(all.subrange(0, j as int) =~= all);
    while i < j && space(s[i])
        invariant
            i <= j <= s@.len(),
            all == s@,
            trimmed(all.subrange(i as int, j as int)) == trimmed(all),
        decreases j - i,
    {
        assert(all.subrange(i as int, j as int).skip(1) =~= all.subrange(i + 1, j as int));
        i += 1;
    }
    while i < j && space(s[j - 1])
        invariant
            i <= j <= s@.len(),
            all == s@,
            i < j ==> !is_space(all[i as int]),
            trimmed(all.subrange(i as int, j as int)) == trimmed(all),
        decreases j - i,
    {
        assert(all.subrange(i as int, j as int).drop_last() =~= all.subrange(i as int, j - 1));
        j = j - 1;
    }
    slice_of(s, i, j)
}

/// Compares two texts.
pub(crate) fn same_chars(a: &Vec<char>, b: &Vec<char>) -> (r: bool)
    ensures
        r == (a@ == b@),
{
    if a.len() != b.len() {
        return false;
    }
    let mut i: usize = 0;
    while i < a.len()
        invariant
            i <= a@.len(),
            a@.len() == b@.len(),
            a@.subrange(0, i as int) == b@.subrange(0, i as int),
        decreases a@.len() - i,
    {
        if a[i] != b[i] {
            assert(a@[i as int] != b@[i as int]);
            return false;
        }
        i += 1;
        assert(a@.subrange(0, i as int) =~= a@.subrange(0, i - 1).push(a@[i - 1]));
        assert(b@.subrange(0, i as int) =~= b@.subrange(0, i - 1).push(b@[i - 1]));
    }
    assert(a@.subrange(0, i as int) =~= a@);
    assert(b@.subrange(0, i as int) =~= b@);
    true
}

impl Position {
    /// UCI text of a move under this position's variant.
    pub fn move_to_uci(&self, m: Move) -> (r: String)
        ensures
            r@ == self@.move_text(m),
    {
        if m.is_castling() && self.king_promotions() {
            let mut s = String::new();
            push_square(&mut s, m.from_sq());
            push_square(&mut s, m.to_sq());
            push_char(&mut s, 'k');
            assert(s@ =~= self@.move_text(m));
            return s;
        }
        m.to_uci(self.chess960)
    }

    /// Parses a UCI move against the current legal move list.
    pub fn parse_uci_move(&self, s: &str) -> (r: Option<Move>)
        requires
            self.wf(),
        ensures
            match r {
                Some(m) => tested(self@).contains(m) && self@.names(trimmed(s@), m),
                None => forall|m: Move| #[trigger]
                    tested(self@).contains(m) ==> !self@.names(trimmed(s@), m),
            },
            self@.sound() ==> match r {
                Some(m) => self@.legal(m),
                None => forall|m: Move| #[trigger]
                    self@.legal(m) ==> !self@.names(trimmed(s@), m),
            },
    {
        let mut list = MoveList::new();
        let ghost l0 = list@;
        generate_legal(self, &mut list);
        let ghost l = list@;
        let ghost v = self@;
        proof {
            assert(l0 =~= seq![]);
            lemma_adds_contains(l, tested(v));
            if v.sound() {
                lemma_adds_contains(l, Set::new(|m: Move| v.legal(m)));
                assert forall|m: Move| #[trigger] v.legal(m) implies tested(v).contains(m) by {
                    assert(Set::new(|x: Move| v.legal(x)).contains(m));
                }
                assert forall|m: Move| tested(v).contains(m) implies v.legal(m) by {
                    assert(l.contains(m));
                    assert(Set::new(|x: Move| v.legal(x)).contains(m));
                }
            }
        }
        let chars = chars_of(s);
        let t = trim(&chars);
        let mut i: usize = 0;
        while i < list.len()
            invariant
                i <= l.len(),
                list@ == l,
                v == self@,
                t@ == trimmed(s@),
                forall|m: Move| #[trigger] l.contains(m) <==> tested(v).contains(m),
                forall|k: int| 0 <= k < i ==> !v.names(t@, #[trigger] l[k]),
                v.sound() ==> forall|m: Move| tested(v).contains(m) ==> #[trigger] v.legal(m),
                v.sound() ==> forall|m: Move| #[trigger] v.legal(m) ==> tested(v).contains(m),
            decreases l.len() - i,
        {
            let m = list.get(i);
            assert(l.contains(m));
            let name = self.move_to_uci(m);
            let cs = chars_of(name.as_str());
            if same_chars(&cs, &t) {
                return Some(m);
            }
            if self.is_real_castling(m) {
                let rook_name = m.to_uci(true);
                let rs = chars_of(rook_name.as_str());
                if same_chars(&rs, &t) {
                    return Some(m);
                }
            }
            i += 1;
        }
        proof {
            assert forall|m: Move| #[trigger] tested(v).contains(m) implies !v.names(t@, m) by {
                assert(l.contains(m));
                let k = choose|k: int| 0 <= k < l.len() && l[k] == m;
                assert(!v.names(t@, l[k]));
            }
        }
        None
    }
}

// Diagrams

/// One rank of a board diagram, each square after `bar`.
pub open spec fn diagram_row(cells: spec_fn(int) -> Seq<char>, r: int, f: int) -> Seq<char>
    decreases 8 - f,
{
    if f >= 8 {
        seq![]
    } else {
        cells(8 * r + f) + diagram_row(cells, r, f + 1)
    }
}

/// The ranks of a diagram from `r` down, each followed by `bar`, its number and `line`.
pub open spec fn diagram_rows(
    cells: spec_fn(int) -> Seq<char>,
    bar: Seq<char>,
    line: Seq<char>,
    r: int,
) -> Seq<char>
    decreases r + 1,
{
    if r < 0 {
        seq![]
    } else {
        diagram_row(cells, r, 0) + bar + seq![digit_char((r + 1) as nat)] + line + diagram_rows(
            cells,
            bar,
            line,
            r - 1,
        )
    }
}

/// A square of a bitboard diagram.
pub open spec fn bit_cell(b: u64) -> spec_fn(int) -> Seq<char> {
    |s: int|
        if holds(b, s) {
            "| X "@
        } else {
            "|   "@
        }
}

/// A square of a position diagram.
pub open spec fn piece_cell(b: Board) -> spec_fn(int) -> Seq<char> {
    |s: int| " | "@.push(b[s].to_char())
}

/// The diagram of a bitboard.
pub open spec fn bits_text(b: u64) -> Seq<char> {
    "+---+---+---+---+---+---+---+---+\n"@ + diagram_rows(
        bit_cell(b),
        "| "@,
        "\n+---+---+---+---+---+---+---+---+\n"@,
        7,
    ) + "  a   b   c   d   e   f   g   h\n"@
}

/// A board diagram of a bitboard.
pub fn pretty(b: Bitboard) -> (r: String)
    ensures
        r@ == bits_text(b),
{
    let mut s = String::new();
    push_text(&mut s, "+---+---+---+---+---+---+---+---+\n");
    let ghost head = "+---+---+---+---+---+---+---+---+\n"@;
    assert(s@ =~= head);
    let ghost cells = bit_cell(b);
    let ghost all = diagram_rows(
        cells,
        "| "@,
        "\n+---+---+---+---+---+---+---+---+\n"@,
        7,
    );
    let mut k: u8 = 8;
    while k > 0
        invariant
            k <= 8,
            cells == bit_cell(b),
            s@ + diagram_rows(
                cells,
                "| "@,
                "\n+---+---+---+---+---+---+---+---+\n"@,
                k - 1,
            ) == head + all,
        decreases k,
    {
        let ghost now = s@;
        let r: u8 = k - 1;
        let ghost row = diagram_row(cells, r as int, 0);
        let mut f: u8 = 0;
        assert(s@ + row =~= now + row);
        while f < 8
            invariant
                f <= 8,
                r < 8,
                cells == bit_cell(b),
                s@ + diagram_row(cells, r as int, f as int) == now + row,
            decreases 8 - f,
        {
            let ghost here = s@;
            if test_bit(b, make_square(f, r)) {
                push_text(&mut s, "| X ");
            } else {
                push_text(&mut s, "|   ");
            }
            assert(s@ + diagram_row(cells, r as int, f + 1) =~= here + diagram_row(
                cells,
                r as int,
                f as int,
            ));
            f += 1;
        }
        assert(s@ =~= now + row);
        push_text(&mut s, "| ");
        push_char(&mut s, (48u8 + k) as char);
        push_text(&mut s, "\n+---+---+---+---+---+---+---+---+\n");
        assert(s@ + diagram_rows(
            cells,
            "| "@,
            "\n+---+---+---+---+---+---+---+---+\n"@,
            r - 1,
        ) =~= now + diagram_rows(
            cells,
            "| "@,
            "\n+---+---+---+---+---+---+---+---+\n"@,
            r as int,
        ));
        k = k - 1;
    }
    assert(s@ =~= head + all);
    push_text(&mut s, "  a   b   c   d   e   f   g   h\n");
    s
}

/// The squares of a set from `n` up, each after a space.
pub open spec fn squares_text(b: u64, n: int) -> Seq<char>
    decreases 64 - n,
{
    if n >= 64 {
        seq![]
    } else {
        (if holds(b, n) {
            seq![' '] + square_text(n)
        } else {
            seq![]
        }) + squares_text(b, n + 1)
    }
}

fn push_squares(s: &mut String, b: Bitboard)
    ensures
        final(s)@ == old(s)@ + squares_text(b, 0),
{
    let ghost before = s@;
    let mut n: u8 = 0;
    while n < 64
        invariant
            n <= 64,
            s@ + squares_text(b, n as int) == before + squares_text(b, 0),
        decreases 64 - n,
    {
        let ghost now = s@;
        if test_bit(b, n) {
            push_char(s, ' ');
            push_square(s, n);
        }
        assert(s@ + squares_text(b, n + 1) =~= now + squares_text(b, n as int));
        n += 1;
    }
    assert(s@ =~= s@ + squares_text(b, 64));
}

/// The board part of a position diagram.
pub open spec fn board_text(b: Board) -> Seq<char> {
    "\n +---+---+---+---+---+---+---+---+\n"@ + diagram_rows(
        piece_cell(b),
        " | "@,
        "\n +---+---+---+---+---+---+---+---+\n"@,
        7,
    ) + "   a   b   c   d   e   f   g   h\n\n"@
}

/// The diagram of a position.
pub open spec fn position_text(v: PosView) -> Seq<char> {
    board_text(v.board) + "Variant: "@ + v.variant.name_text() + "\nFen: "@ + fen_text(v)
        + "\nKey: "@ + hex_text(v.st().key, 16) + "\nCheckers:"@ + squares_text(
        v.st().checkers,
        0,
    ) + seq!['\n']
}

impl Position {
    fn push_board(&self, s: &mut String)
        requires
            self.wf(),
        ensures
            final(s)@ == old(s)@ + board_text(self@.board),
    {
        let ghost before = s@;
        let ghost b = self@.board;
        push_text(s, "\n +---+---+---+---+---+---+---+---+\n");
        let ghost head = s@;
        let ghost cells = piece_cell(b);
        let ghost all = diagram_rows(
            cells,
            " | "@,
            "\n +---+---+---+---+---+---+---+---+\n"@,
            7,
        );
        let mut k: u8 = 8;
        while k > 0
            invariant
                k <= 8,
                self.wf(),
                b == self@.board,
                cells == piece_cell(b),
                s@ + diagram_rows(
                    cells,
                    " | "@,
                    "\n +---+---+---+---+---+---+---+---+\n"@,
                    k - 1,
                ) == head + all,
            decreases k,
        {
            let ghost now = s@;
            let r: u8 = k - 1;
            let ghost row = diagram_row(cells, r as int, 0);
            let mut f: u8 = 0;
            assert(s@ + row =~= now + row);
            while f < 8
                invariant
                    f <= 8,
                    r < 8,
                    self.wf(),
                    b == self@.board,
                    cells == piece_cell(b),
                    s@ + diagram_row(cells, r as int, f as int) == now + row,
                decreases 8 - f,
            {
                let ghost here = s@;
                let sq = make_square(f, r);
                push_text(s, " | ");
                push_char(s, self.piece_on(sq).to_char());
                proof {
                    assert(sq == 8 * r + f);
                    assert(s@ =~= here + cells(8 * r + f));
                    assert(s@ + diagram_row(cells, r as int, f + 1) =~= here + diagram_row(
                        cells,
                        r as int,
                        f as int,
                    ));
                }
                f += 1;
            }
            assert(s@ =~= now + row);
            push_text(s, " | ");
            push_char(s, (48u8 + k) as char);
            push_text(s, "\n +---+---+---+---+---+---+---+---+\n");
            assert(s@ + diagram_rows(
                cells,
                " | "@,
                "\n +---+---+---+---+---+---+---+---+\n"@,
                r - 1,
            ) =~= now + diagram_rows(
                cells,
                " | "@,
                "\n +---+---+---+---+---+---+---+---+\n"@,
                r as int,
            ));
            k = k - 1;
        }
        assert(s@ =~= head + all);
        push_text(s, "   a   b   c   d   e   f   g   h\n\n");
        assert(s@ =~= before + board_text(b));
    }

    /// A board diagram with the variant, FEN, key and checkers.
    pub fn pretty(&self) -> (r: String)
        requires
            self.wf(),
        ensures
            r@ == position_text(self@),
    {
        let mut s = String::new();
        self.push_board(&mut s);
        assert(s@ =~= board_text(self@.board));
        push_text(&mut s, "Variant: ");
        push_text(&mut s, self.variant.name());
        push_text(&mut s, "\nFen: ");
        let fen = self.fen();
        push_text(&mut s, fen.as_str());
        push_text(&mut s, "\nKey: ");
        push_hex(&mut s, self.key());
        push_text(&mut s, "\nCheckers:");
        push_squares(&mut s, self.checkers());
        push_char(&mut s, '\n');
        assert(s@ =~= position_text(self@));
        s
    }
}

// Moves read back

/// Names of squares tell squares apart.
proof fn lemma_square_texts(a: int, b: int)
    requires
        on_board(a),
        on_board(b),
    ensures
        square_text(a).len() == 2,
        square_text(a)[0] == square_text(b)[0] && square_text(a)[1] == square_text(b)[1] ==> a == b,
        'a' <= square_text(a)[0] <= 'h',
        '1' <= square_text(a)[1] <= '8',
{
}

/// A text without white space at its ends is its own trimming.
proof fn lemma_trimmed_plain(s: Seq<char>)
    requires
        s.len() > 0,
        !is_space(s[0]),
        !is_space(s.last()),
    ensures
        trimmed(s) == s,
{
}

impl PosView {
    /// Castling written as a king move cannot be taken for a step of the king.
    pub open spec fn castling_stands_out(self, m: Move) -> bool {
        self.real_castling(m) && !self.chess960 ==> file(m.from()) == 4
    }
}

/// The parts of the text of a move that is not a drop.
proof fn lemma_plain_text(v: PosView, m: Move)
    requires
        v.legal(m),
        v.wf(),
        !m.is_drop(),
    ensures
        ({
            let t = v.move_text(m);
            let to = if v.real_castling(m) {
                m.uci_to(v.chess960)
            } else {
                m.to()
            };
            &&& on_board(to)
            &&& t.len() == (if v.promoted_to(m) is Some {
                5int
            } else {
                4
            })
            &&& t[0] == square_text(m.from())[0]
            &&& t[1] == square_text(m.from())[1]
            &&& t[2] == square_text(to)[0]
            &&& t[3] == square_text(to)[1]
            &&& v.promoted_to(m) matches Some(p) ==> t[4] == p.to_char()
        }),
{
    assert(m.0 != 0);
    assert(m != Move::null());
    lemma_square_texts(m.from(), m.to());
}

/// The text of a drop.
proof fn lemma_drop_text(v: PosView, m: Move)
    requires
        v.legal(m),
        v.wf(),
        m.is_drop(),
    ensures
        ({
            let t = v.move_text(m);
            &&& t.len() == 4
            &&& t[0] == upper(m.drop_piece().to_char())
            &&& t[1] == '@'
            &&& t[2] == square_text(m.to())[0]
            &&& t[3] == square_text(m.to())[1]
        }),
{
    assert(m != Move::null());
    lemma_square_texts(m.to(), m.to());
}

/// Reading the text of a legal move gives the move back: no other legal move has that text.
/// In standard chess castling is written as a king move, so this holds where castling kings
/// stand on the e-file.
pub proof fn written_moves_read_back(v: PosView, m: Move, n: Move)
    requires
        v.sound(),
        v.legal(m),
        v.legal(n),
        v.castling_stands_out(m),
        v.castling_stands_out(n),
    ensures
        v.names(trimmed(v.move_text(m)), n) <==> n == m,
{
    let t = v.move_text(m);
    if m.is_drop() {
        lemma_drop_text(v, m);
        lemma_square_texts(m.to(), n.to());
    } else {
        lemma_plain_text(v, m);
        lemma_square_texts(m.from(), n.from());
    }
    assert(!is_space(t[0]) && !is_space(t.last()));
    lemma_trimmed_plain(t);
    if v.names(t, n) {
        lemma_named_is_same(v, m, n);
    }
}

proof fn lemma_named_is_same(v: PosView, m: Move, n: Move)
    requires
        v.sound(),
        v.legal(m),
        v.legal(n),
        v.castling_stands_out(m),
        v.castling_stands_out(n),
        v.names(v.move_text(m), n),
    ensures
        n == m,
{
    if m.is_drop() {
        lemma_drop_text(v, m);
    } else {
        lemma_plain_text(v, m);
    }
    if n.is_drop() {
        lemma_drop_text(v, n);
    } else {
        lemma_plain_text(v, n);
    }
    lemma_square_texts(m.to(), n.to());
    lemma_square_texts(m.from(), n.from());
}

/// Castling written as king takes rook reads back as that move, under whichever rules
/// castling is written: no other legal move has that text. Outside Chess960 this holds where
/// the king stands on the e-file or the rook in a corner.
pub proof fn castling_by_its_rook_reads_back(v: PosView, m: Move, n: Move)
    requires
        v.sound(),
        v.legal(m),
        v.legal(n),
        v.real_castling(m),
        v.chess960 || file(m.from()) == 4 || file(m.to()) == 0 || file(m.to()) == 7,
    ensures
        v.names(trimmed(m.uci_text(true)), n) <==> n == m,
{
    let t = m.uci_text(true);
    lemma_square_texts(m.from(), n.from());
    lemma_square_texts(m.to(), n.to());
    assert(m.0 != 0 && m != Move::null());
    assert(t =~= square_text(m.from()) + square_text(m.to()));
    assert(!is_space(t[0]) && !is_space(t.last()));
    lemma_trimmed_plain(t);
    if v.names(t, n) {
        if n.is_drop() {
            lemma_drop_text(v, n);
        } else {
            lemma_plain_text(v, n);
            if v.real_castling(n) {
                lemma_square_texts(n.uci_to(v.chess960), m.to());
                assert(n.from() == m.from());
                assert(n.to() == m.to()) by {
                    if n.uci_text(true) == t {
                        assert(t[2] == square_text(n.to())[0] && t[3] == square_text(n.to())[1]);
                    } else if !v.chess960 {
                        lemma_rook_of_right(v, m);
                        lemma_rook_of_right(v, n);
                    }
                }
            } else {
                assert(n.from() == m.from() && n.to() == m.to());
                lemma_castles_to_own_rook(v, m);
            }
        }
    }
}

/// The rook of a castling move is one of the mover's pieces.
proof fn lemma_castles_to_own_rook(v: PosView, m: Move)
    requires
        v.wf(),
        v.legal(m),
        v.real_castling(m),
    ensures
        v.board[m.to()] == rook(v.stm),
        v.board[m.from()] == king(v.stm),
{
    let cr = castling_right(v.stm, m.to() > m.from());
    assert(v.castling_free(m));
    assert(single_right(cr) && v.has_right(cr));
    assert(v.right_ok(cr));
}

/// A castling move goes to the rook of its right, on the back rank.
proof fn lemma_rook_of_right(v: PosView, m: Move)
    requires
        v.sound(),
        v.legal(m),
        v.real_castling(m),
    ensures
        m.to() == v.rooks[castling_right(v.stm, m.to() > m.from()) as int],
        rank(m.to()) == rank(m.from()),
        m.to() != m.from(),
{
    let cr = castling_right(v.stm, m.to() > m.from());
    assert(v.castling_free(m));
    assert(single_right(cr) && v.has_right(cr));
    if !v.variant.castling_allowed() {
        assert(0u8 & cr == 0) by (bit_vector);
    }
    assert(v.right_ok(cr));
    lemma_castling_places(v, m);
}

} // verus!
