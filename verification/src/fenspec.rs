//! The FEN grammar: what a text in Forsyth-Edwards notation, with the extensions of the
//! supported variants, describes.

use vstd::prelude::*;

use crate::bits::one;
use crate::geometry::{on_board, pawn_hit};
use crate::rules::{castling_right, count, king_sq, pawn, rook, Board};
use crate::text::upper;
use crate::types::{relative_rank, relative_square, Color, Piece};
use crate::variant::Variant;

verus! {

/// Why a text is not a position.
#[derive(Clone, Copy, PartialEq, Eq, Debug, Structural)]
pub enum FenError {
    /// Fewer than two fields.
    TooFewFields,
    /// A digit that is not a run of one to eight squares.
    BadDigit(char),
    /// A piece placed past the board.
    BoardOverflow,
    /// A character that stands for nothing.
    BadCharacter(char),
    /// More pieces of a type in a pocket than it can hold.
    PocketOverflow,
    /// Not exactly one king on each side.
    Kings,
    /// The side to move is neither `w` nor `b`.
    BadSide,
    /// A move number out of range.
    MoveNumber,
}

/// Unicode white space.
pub open spec fn is_space(c: char) -> bool {
    let u = c as u32;
    ||| 0x9 <= u <= 0xd
    ||| u == 0x20
    ||| u == 0x85
    ||| u == 0xa0
    ||| u == 0x1680
    ||| 0x2000 <= u <= 0x200a
    ||| u == 0x2028
    ||| u == 0x2029
    ||| u == 0x202f
    ||| u == 0x205f
    ||| u == 0x3000
}

/// The fields of `s` from index `i` on, `cur` being the field read so far.
pub open spec fn fields_from(s: Seq<char>, i: int, cur: Seq<char>) -> Seq<Seq<char>>
    decreases s.len() - i,
{
    if i < 0 || i >= s.len() {
        if cur.len() == 0 {
            seq![]
        } else {
            seq![cur]
        }
    } else if is_space(s[i]) {
        (if cur.len() == 0 {
            seq![]
        } else {
            seq![cur]
        }) + fields_from(s, i + 1, seq![])
    } else {
        fields_from(s, i + 1, cur.push(s[i]))
    }
}

/// The fields of a text: its parts between white space.
pub open spec fn fields(s: Seq<char>) -> Seq<Seq<char>> {
    fields_from(s, 0, seq![])
}

pub open spec fn is_digit(c: char) -> bool {
    '0' <= c && c <= '9'
}

pub open spec fn digit(c: char) -> int {
    c as int - '0' as int
}

/// Decimal value of the digits of `s` from `i` on, `acc` being the value before; nothing if
/// one is no digit.
pub open spec fn number_from(s: Seq<char>, i: int, acc: int) -> Option<int>
    decreases s.len() - i,
{
    if i < 0 || i >= s.len() {
        Some(acc)
    } else if is_digit(s[i]) {
        number_from(s, i + 1, acc * 10 + digit(s[i]))
    } else {
        None
    }
}

/// A natural number up to `max`: digits only, at least one.
pub open spec fn natural(s: Seq<char>, max: int) -> Option<int> {
    if s.len() == 0 {
        None
    } else {
        match number_from(s, 0, 0) {
            Some(n) => if n <= max {
                Some(n)
            } else {
                None
            },
            None => None,
        }
    }
}

/// A 32-bit integer: an optional sign and at least one digit.
pub open spec fn integer(s: Seq<char>) -> Option<int> {
    if s.len() == 0 {
        None
    } else if s[0] == '-' {
        match natural(s.skip(1), 0x8000_0000) {
            Some(n) => Some(-n),
            None => None,
        }
    } else if s[0] == '+' {
        natural(s.skip(1), 0x7fff_ffff)
    } else {
        natural(s, 0x7fff_ffff)
    }
}

/// First index from `i` on at which `c` occurs, or the length.
pub open spec fn find_from(s: Seq<char>, c: char, i: int) -> int
    decreases s.len() - i,
{
    if i < 0 || i >= s.len() || s[i] == c {
        i
    } else {
        find_from(s, c, i + 1)
    }
}

/// The text without the `c`s at its end.
pub open spec fn trim_end(s: Seq<char>, c: char) -> Seq<char>
    decreases s.len(),
{
    if s.len() > 0 && s.last() == c {
        trim_end(s.drop_last(), c)
    } else {
        s
    }
}

/// Index of the first field from `i` on that holds a plus sign, or the number of fields.
pub open spec fn plus_field(f: Seq<Seq<char>>, i: int) -> int
    decreases f.len() - i,
{
    if i < 0 || i >= f.len() || find_from(f[i], '+', 0) < f[i].len() {
        i
    } else {
        plus_field(f, i + 1)
    }
}

/// The numbers between the plus signs of a field, from `i` on.
pub open spec fn plus_numbers(s: Seq<char>, i: int, cur: Seq<char>) -> Seq<int>
    decreases s.len() - i,
{
    let here = match natural(cur, 255) {
        Some(n) => seq![n],
        None => seq![],
    };
    if i < 0 || i >= s.len() {
        here
    } else if s[i] == '+' {
        here + plus_numbers(s, i + 1, seq![])
    } else {
        plus_numbers(s, i + 1, cur.push(s[i]))
    }
}

pub open spec fn at_most(n: int, max: int) -> int {
    if n < max {
        n
    } else {
        max
    }
}

/// Checks given by each side that a three-check field describes: `+w+b` counts checks
/// given, `w+b` checks remaining.
pub open spec fn checks_of(s: Seq<char>) -> (int, int) {
    let n = plus_numbers(s, 0, seq![]);
    if n.len() != 2 {
        (0, 0)
    } else if s.len() > 0 && s[0] == '+' {
        (at_most(n[0], 3), at_most(n[1], 3))
    } else {
        (3 - at_most(n[0], 3), 3 - at_most(n[1], 3))
    }
}

/// A board being filled: the next square, the last one filled and the promoted marks.
pub struct Placing {
    pub board: Board,
    pub sq: int,
    pub last: int,
    pub marks: u64,
}

/// The piece with the letter `c`, as a number below twelve.
pub open spec fn letter(c: char) -> Option<Piece> {
    if c == 'P' {
        Some(Piece(0))
    } else if c == 'N' {
        Some(Piece(1))
    } else if c == 'B' {
        Some(Piece(2))
    } else if c == 'R' {
        Some(Piece(3))
    } else if c == 'Q' {
        Some(Piece(4))
    } else if c == 'K' {
        Some(Piece(5))
    } else if c == 'p' {
        Some(Piece(6))
    } else if c == 'n' {
        Some(Piece(7))
    } else if c == 'b' {
        Some(Piece(8))
    } else if c == 'r' {
        Some(Piece(9))
    } else if c == 'q' {
        Some(Piece(10))
    } else if c == 'k' {
        Some(Piece(11))
    } else {
        None
    }
}

/// One character of the piece placement.
pub open spec fn place_one(p: Placing, c: char) -> Result<Placing, FenError> {
    if is_digit(c) {
        if 1 <= digit(c) <= 8 {
            Ok(Placing { sq: p.sq + digit(c), ..p })
        } else {
            Err(FenError::BadDigit(c))
        }
    } else if c == '/' {
        Ok(Placing { sq: p.sq - 16, ..p })
    } else if c == '~' {
        Ok(
            Placing {
                marks: if p.last >= 0 {
                    p.marks | one(p.last)
                } else {
                    p.marks
                },
                ..p
            },
        )
    } else {
        match letter(c) {
            Some(pc) => if !on_board(p.sq) {
                Err(FenError::BoardOverflow)
            } else {
                Ok(
                    Placing {
                        board: p.board.update(p.sq, pc),
                        sq: p.sq + 1,
                        last: p.sq,
                        marks: p.marks,
                    },
                )
            },
            None => Err(FenError::BadCharacter(c)),
        }
    }
}

/// The piece placement from index `i` on.
pub open spec fn place_from(s: Seq<char>, i: int, p: Placing) -> Result<Placing, FenError>
    decreases s.len() - i,
{
    if i < 0 || i >= s.len() {
        Ok(p)
    } else {
        match place_one(p, s[i]) {
            Ok(q) => place_from(s, i + 1, q),
            Err(e) => Err(e),
        }
    }
}

/// The empty board, filling from a8.
pub open spec fn start_placing() -> Placing {
    Placing { board: Seq::new(64, |s: int| Piece(12)), sq: 56, last: -1, marks: 0 }
}

/// Pieces of kind `p` among the characters below `n`.
pub open spec fn pocket_count(s: Seq<char>, p: int, n: nat) -> nat
    decreases n,
{
    if n == 0 || n > s.len() {
        0
    } else {
        pocket_count(s, p, (n - 1) as nat) + match letter(s[n - 1]) {
            Some(pc) => if pc.0 == p {
                1nat
            } else {
                0
            },
            None => 0,
        }
    }
}

/// Pocket of piece `p` (its number, kings aside).
pub open spec fn pocket_of(s: Seq<char>, p: int) -> nat {
    pocket_count(s, p, s.len())
}

/// Some pocket holds more than sixteen pieces of one kind.
pub open spec fn pocket_too_full(s: Seq<char>) -> bool {
    exists|p: int| 0 <= p < 12 && p != 5 && p != 11 && #[trigger] pocket_of(s, p) > 16
}

/// Castling set-up being read.
#[verifier::ext_equal]
pub struct Castling {
    pub rights: u8,
    pub mask: Seq<u8>,
    pub rooks: Seq<u8>,
}

/// Nearest rook to the corner above `k`, looking down from `s`.
pub open spec fn rook_down(b: Board, r: Piece, k: int, s: int) -> Option<int>
    decreases s - k,
{
    if s <= k {
        None
    } else if b[s] == r {
        Some(s)
    } else {
        rook_down(b, r, k, s - 1)
    }
}

/// Nearest rook to the corner below `k`, looking up from `s`.
pub open spec fn rook_up(b: Board, r: Piece, k: int, s: int) -> Option<int>
    decreases k - s,
{
    if s >= k {
        None
    } else if b[s] == r {
        Some(s)
    } else {
        rook_up(b, r, k, s + 1)
    }
}

/// Colour a castling character speaks of.
pub open spec fn castling_color(c: char) -> Color {
    if 'A' <= c && c <= 'Z' {
        Color::White
    } else {
        Color::Black
    }
}

/// The rook a castling character names.
pub open spec fn castling_rook(b: Board, c: char) -> Option<int> {
    let side = castling_color(c);
    let k = king_sq(b, side);
    let up = upper(c);
    if up == 'K' {
        rook_down(b, rook(side), k, relative_square(side, 7) as int)
    } else if up == 'Q' {
        rook_up(b, rook(side), k, relative_square(side, 0) as int)
    } else if 'A' <= up && up <= 'H' {
        let s = up as int - 'A' as int + relative_square(side, 0);
        if b[s] == rook(side) {
            Some(s)
        } else {
            None
        }
    } else {
        None
    }
}

/// The castling set-up with one right added.
pub open spec fn with_right(b: Board, x: Castling, side: Color, r: int) -> Castling {
    let k = king_sq(b, side);
    let cr = castling_right(side, r > k);
    let m1 = x.mask.update(k, x.mask[k] | cr);
    Castling {
        rights: x.rights | cr,
        mask: m1.update(r, m1[r] | cr),
        rooks: x.rooks.update(cr as int, r as u8),
    }
}

/// The castling field from index `i` on.
pub open spec fn castling_from(b: Board, s: Seq<char>, i: int, x: Castling) -> Castling
    decreases s.len() - i,
{
    if i < 0 || i >= s.len() {
        x
    } else {
        let y = if s[i] == '-' {
            x
        } else {
            match castling_rook(b, s[i]) {
                Some(r) => with_right(b, x, castling_color(s[i]), r),
                None => x,
            }
        };
        castling_from(b, s, i + 1, y)
    }
}

pub open spec fn no_castling() -> Castling {
    Castling {
        rights: 0,
        mask: Seq::new(64, |s: int| 0u8),
        rooks: Seq::new(16, |s: int| 64u8),
    }
}

/// The square a text starts with, such as `e3`.
pub open spec fn square_named(s: Seq<char>) -> Option<int> {
    if s.len() >= 2 && 'a' <= s[0] && s[0] <= 'h' && '1' <= s[1] && s[1] <= '8' {
        Some((s[1] as int - '1' as int) * 8 + (s[0] as int - 'a' as int))
    } else {
        None
    }
}

/// An en passant square is kept only if a capture on it is possible.
pub open spec fn ep_kept(b: Board, stm: Color, e: int) -> bool {
    let up = stm.forward() as int;
    &&& relative_rank(stm, e as u8) == 5
    &&& exists|s: int| on_board(s) && #[trigger] b[s] == pawn(stm) && pawn_hit(stm, s, e)
    &&& b[e - up] == pawn(stm.flip())
    &&& b[e].0 == 12
    &&& b[e + up].0 == 12
}

/// Everything a FEN text says.
#[verifier::ext_equal]
pub struct Setup {
    pub board: Board,
    pub stm: Color,
    pub castling: Castling,
    pub ep: int,
    pub rule50: int,
    pub game_ply: int,
    pub checks: (int, int),
    pub marks: u64,
    /// Pocket text.
    pub pocket: Seq<char>,
}

/// The position described by the fields of a text, the three-check field taken out.
pub open spec fn setup_of(
    f: Seq<Seq<char>>,
    checks: (int, int),
    variant: Variant,
) -> Result<Setup, FenError> {
    let cut = find_from(f[0], '[', 0);
    let pocket = if cut < f[0].len() {
        trim_end(f[0].skip(cut + 1), ']')
    } else {
        seq![]
    };
    match place_from(f[0].subrange(0, cut), 0, start_placing()) {
        Err(e) => Err(e),
        Ok(p) => {
            let b = p.board;
            if variant == Variant::Crazyhouse && pocket_too_full(pocket) {
                Err(FenError::PocketOverflow)
            } else if variant.royal_king() && (count(b, 5) != 1 || count(b, 11) != 1) {
                Err(FenError::Kings)
            } else if f[1] != "w"@ && f[1] != "b"@ {
                Err(FenError::BadSide)
            } else {
                let stm = if f[1] == "w"@ {
                    Color::White
                } else {
                    Color::Black
                };
                let castling = if f.len() > 2 && variant.castling_allowed() {
                    castling_from(b, f[2], 0, no_castling())
                } else {
                    no_castling()
                };
                let ep = if f.len() > 3 && f[3] != "-"@ {
                    match square_named(f[3]) {
                        Some(e) => if ep_kept(b, stm, e) {
                            e
                        } else {
                            64
                        },
                        None => 64,
                    }
                } else {
                    64
                };
                let rule50 = if f.len() > 4 {
                    match integer(f[4]) {
                        Some(n) => n,
                        None => 0,
                    }
                } else {
                    0
                };
                let number = if f.len() > 5 {
                    match integer(f[5]) {
                        Some(n) => n,
                        None => 1,
                    }
                } else {
                    1
                };
                let plies = (if number > 1 {
                    2 * (number - 1)
                } else {
                    0
                }) + (if stm == Color::Black {
                    1int
                } else {
                    0
                });
                if plies > i32::MAX {
                    Err(FenError::MoveNumber)
                } else {
                    Ok(
                        Setup {
                            board: b,
                            stm,
                            castling,
                            ep,
                            rule50,
                            game_ply: plies,
                            checks: if variant == Variant::ThreeCheck {
                                checks
                            } else {
                                (0, 0)
                            },
                            marks: if variant == Variant::Crazyhouse {
                                p.marks
                            } else {
                                0
                            },
                            pocket: if variant == Variant::Crazyhouse {
                                pocket
                            } else {
                                seq![]
                            },
                        },
                    )
                }
            }
        },
    }
}

/// The position a FEN text describes under a variant.
pub open spec fn parse(s: Seq<char>, variant: Variant) -> Result<Setup, FenError> {
    let f = fields(s);
    if f.len() < 2 {
        Err(FenError::TooFewFields)
    } else {
        let i = plus_field(f, 3);
        if i < f.len() {
            setup_of(f.remove(i), checks_of(f[i]), variant)
        } else {
            setup_of(f, (0, 0), variant)
        }
    }
}

} // verus!
