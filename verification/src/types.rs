//! Core value types: colors, pieces, squares, moves and score constants.
//!
//! Squares use little-endian rank-file mapping (a1 = 0, b1 = 1, ..., h8 = 63), so
//! "north" is `+8` and a bitboard holds square `s` in bit `s`.

use vstd::prelude::*;

verus! {

/// A set of squares, one bit per square.
pub type Bitboard = u64;

/// A square index; 64 stands for "no square".
pub type Square = u8;

/// A score in centipawns.
pub type Value = i32;

/// A search depth in plies.
pub type Depth = i32;

pub const SQ_NONE: Square = 64;

// Mate scores are `VALUE_MATE - ply`; anything at or beyond `VALUE_MATE_IN_MAX_PLY` is a
// proven win, so evaluation output is clamped below it.
pub const VALUE_ZERO: Value = 0;
pub const VALUE_DRAW: Value = 0;
pub const VALUE_MATE: Value = 32000;
pub const VALUE_INFINITE: Value = 32001;
pub const VALUE_NONE: Value = 32002;
pub const MAX_PLY: usize = 128;
pub const VALUE_MATE_IN_MAX_PLY: Value = 31872;
pub const VALUE_MATED_IN_MAX_PLY: Value = -31872;

/// Largest magnitude a static evaluation may take.
pub const VALUE_EVAL_MAX: Value = 31871;

/// Score of mating the opponent `ply` plies from the root.
#[verifier::allow_in_spec]
pub fn mate_in(ply: usize) -> Value
    requires
        ply <= 32000,
    returns
        (VALUE_MATE - ply) as Value,
{
    VALUE_MATE - ply as Value
}

/// Score of being mated `ply` plies from the root.
#[verifier::allow_in_spec]
pub fn mated_in(ply: usize) -> Value
    requires
        ply <= 32000,
    returns
        (ply - VALUE_MATE) as Value,
{
    -VALUE_MATE + ply as Value
}

#[verifier::allow_in_spec]
pub fn is_win(v: Value) -> bool
    returns
        v >= VALUE_MATE_IN_MAX_PLY,
{
    v >= VALUE_MATE_IN_MAX_PLY
}

#[verifier::allow_in_spec]
pub fn is_loss(v: Value) -> bool
    returns
        v <= VALUE_MATED_IN_MAX_PLY,
{
    v <= VALUE_MATED_IN_MAX_PLY
}

#[verifier::allow_in_spec]
pub fn is_decisive(v: Value) -> bool
    returns
        v >= VALUE_MATE_IN_MAX_PLY || v <= VALUE_MATED_IN_MAX_PLY,
{
    is_win(v) || is_loss(v)
}

#[verifier::allow_in_spec]
pub fn is_valid(v: Value) -> bool
    returns
        v != VALUE_NONE,
{
    v != VALUE_NONE
}

#[derive(Clone, Copy, PartialEq, Eq, Debug, Hash, Structural)]
pub enum Color {
    White,
    Black,
}

impl Color {
    #[verifier::allow_in_spec]
    pub fn flip(self) -> Color
        returns
            (match self {
                Color::White => Color::Black,
                Color::Black => Color::White,
            }),
    {
        match self {
            Color::White => Color::Black,
            Color::Black => Color::White,
        }
    }

    #[verifier::allow_in_spec]
    pub fn idx(self) -> usize
        returns
            (match self {
                Color::White => 0usize,
                Color::Black => 1usize,
            }),
    {
        match self {
            Color::White => 0,
            Color::Black => 1,
        }
    }

    #[verifier::allow_in_spec]
    pub fn from_idx(i: usize) -> Color
        returns
            (if i == 0 {
                Color::White
            } else {
                Color::Black
            }),
    {
        if i == 0 {
            Color::White
        } else {
            Color::Black
        }
    }

    /// Pawn push direction as a signed square offset.
    #[verifier::allow_in_spec]
    pub fn forward(self) -> i32
        returns
            (match self {
                Color::White => 8i32,
                Color::Black => -8i32,
            }),
    {
        match self {
            Color::White => 8,
            Color::Black => -8,
        }
    }
}

#[derive(Clone, Copy, PartialEq, Eq, Debug, Hash, PartialOrd, Ord, Structural)]
pub enum PieceType {
    Pawn,
    Knight,
    Bishop,
    Rook,
    Queen,
    King,
}

pub const PIECE_TYPE_NB: usize = 6;

impl PieceType {
    pub const ALL: [PieceType; 6] = [
        PieceType::Pawn,
        PieceType::Knight,
        PieceType::Bishop,
        PieceType::Rook,
        PieceType::Queen,
        PieceType::King,
    ];

    #[verifier::allow_in_spec]
    pub fn idx(self) -> usize
        returns
            (match self {
                PieceType::Pawn => 0usize,
                PieceType::Knight => 1usize,
                PieceType::Bishop => 2usize,
                PieceType::Rook => 3usize,
                PieceType::Queen => 4usize,
                PieceType::King => 5usize,
            }),
    {
        match self {
            PieceType::Pawn => 0,
            PieceType::Knight => 1,
            PieceType::Bishop => 2,
            PieceType::Rook => 3,
            PieceType::Queen => 4,
            PieceType::King => 5,
        }
    }

    #[verifier::allow_in_spec]
    pub fn from_idx(i: usize) -> PieceType
        returns
            (if i == 0 {
                PieceType::Pawn
            } else if i == 1 {
                PieceType::Knight
            } else if i == 2 {
                PieceType::Bishop
            } else if i == 3 {
                PieceType::Rook
            } else if i == 4 {
                PieceType::Queen
            } else {
                PieceType::King
            }),
    {
        match i {
            0 => PieceType::Pawn,
            1 => PieceType::Knight,
            2 => PieceType::Bishop,
            3 => PieceType::Rook,
            4 => PieceType::Queen,
            _ => PieceType::King,
        }
    }

    #[verifier::allow_in_spec]
    pub fn to_char(self) -> char
        returns
            (match self {
                PieceType::Pawn => 'p',
                PieceType::Knight => 'n',
                PieceType::Bishop => 'b',
                PieceType::Rook => 'r',
                PieceType::Queen => 'q',
                PieceType::King => 'k',
            }),
    {
        match self {
            PieceType::Pawn => 'p',
            PieceType::Knight => 'n',
            PieceType::Bishop => 'b',
            PieceType::Rook => 'r',
            PieceType::Queen => 'q',
            PieceType::King => 'k',
        }
    }
}

/// A colored piece packed into a byte: 0..5 white P..K, 6..11 black p..k, 12 = none.
#[derive(Clone, Copy, PartialEq, Eq, Debug, Hash, Structural)]
pub struct Piece(pub u8);

pub const PIECE_NB: usize = 12;

impl Piece {
    /// The empty square.
    #[verifier::allow_in_spec]
    pub fn none() -> Piece
        returns
            Piece(12),
    {
        Piece(12)
    }

    /// One of the twelve pieces or `NONE`.
    pub open spec fn wf(self) -> bool {
        self.0 <= 12
    }

    #[verifier::allow_in_spec]
    pub fn make(c: Color, pt: PieceType) -> Piece
        returns
            Piece((c.idx() * 6 + pt.idx()) as u8),
    {
        Piece((c.idx() * 6 + pt.idx()) as u8)
    }

    #[verifier::allow_in_spec]
    pub fn piece_type(self) -> PieceType
        returns
            PieceType::from_idx((self.0 % 6) as usize),
    {
        PieceType::from_idx((self.0 % 6) as usize)
    }

    #[verifier::allow_in_spec]
    pub fn color(self) -> Color
        returns
            (if self.0 < 6 {
                Color::White
            } else {
                Color::Black
            }),
    {
        if self.0 < 6 {
            Color::White
        } else {
            Color::Black
        }
    }

    #[verifier::allow_in_spec]
    pub fn idx(self) -> usize
        returns
            self.0 as usize,
    {
        self.0 as usize
    }

    #[verifier::allow_in_spec]
    pub fn is_none(self) -> bool
        returns
            self.0 == 12,
    {
        self.0 == 12
    }

    #[verifier::allow_in_spec]
    pub fn is_some(self) -> bool
        returns
            self.0 != 12,
    {
        self.0 != 12
    }

    /// FEN letter of the piece, or `.` for an empty square.
    #[verifier::allow_in_spec]
    pub fn to_char(self) -> char
        returns
            (if self.0 == 0 {
                'P'
            } else if self.0 == 1 {
                'N'
            } else if self.0 == 2 {
                'B'
            } else if self.0 == 3 {
                'R'
            } else if self.0 == 4 {
                'Q'
            } else if self.0 == 5 {
                'K'
            } else if self.0 == 6 {
                'p'
            } else if self.0 == 7 {
                'n'
            } else if self.0 == 8 {
                'b'
            } else if self.0 == 9 {
                'r'
            } else if self.0 == 10 {
                'q'
            } else if self.0 == 11 {
                'k'
            } else {
                '.'
            }),
    {
        match self.0 {
            0 => 'P',
            1 => 'N',
            2 => 'B',
            3 => 'R',
            4 => 'Q',
            5 => 'K',
            6 => 'p',
            7 => 'n',
            8 => 'b',
            9 => 'r',
            10 => 'q',
            11 => 'k',
            _ => '.',
        }
    }

    /// The piece a FEN letter stands for: the one piece with that letter, if any.
    pub fn from_char(c: char) -> (r: Option<Piece>)
        ensures
            r matches Some(p) ==> p.0 < 12 && p.to_char() == c,
            r is None ==> forall|p: Piece| p.0 < 12 ==> #[trigger] p.to_char() != c,
    {
        match c {
            'P' => Some(Piece::make(Color::White, PieceType::Pawn)),
            'N' => Some(Piece::make(Color::White, PieceType::Knight)),
            'B' => Some(Piece::make(Color::White, PieceType::Bishop)),
            'R' => Some(Piece::make(Color::White, PieceType::Rook)),
            'Q' => Some(Piece::make(Color::White, PieceType::Queen)),
            'K' => Some(Piece::make(Color::White, PieceType::King)),
            'p' => Some(Piece::make(Color::Black, PieceType::Pawn)),
            'n' => Some(Piece::make(Color::Black, PieceType::Knight)),
            'b' => Some(Piece::make(Color::Black, PieceType::Bishop)),
            'r' => Some(Piece::make(Color::Black, PieceType::Rook)),
            'q' => Some(Piece::make(Color::Black, PieceType::Queen)),
            'k' => Some(Piece::make(Color::Black, PieceType::King)),
            _ => None,
        }
    }
}


// Square helpers

/// File (0 = a) of a square, as an integer.
pub open spec fn file(s: int) -> int {
    s % 8
}

/// Rank (0 = the first) of a square, as an integer.
pub open spec fn rank(s: int) -> int {
    s / 8
}

/// Bit identities behind the square helpers.
proof fn lemma_square_bits(sq: u8, r: u8)
    by (bit_vector)
    ensures
        sq & 7 == sq % 8,
        sq >> 3 == sq / 8,
        r < 8 ==> r ^ 7 == 7 - r,
        sq ^ 0 == sq,
        sq < 64 ==> sq ^ 56 == (7 - sq / 8) * 8 + sq % 8,
        sq ^ 56 < 64 <==> sq < 64,
        (sq ^ 56) ^ 56 == sq,
{
}

#[verifier::allow_in_spec]
pub fn make_square(file: u8, rank: u8) -> Square
    requires
        rank * 8 + file < 256,
    returns
        (rank * 8 + file) as Square,
{
    rank * 8 + file
}

#[verifier::allow_in_spec]
pub fn file_of(sq: Square) -> u8
    returns
        sq % 8,
{
    proof {
        lemma_square_bits(sq, 0);
    }
    sq & 7
}

#[verifier::allow_in_spec]
pub fn rank_of(sq: Square) -> u8
    returns
        sq / 8,
{
    proof {
        lemma_square_bits(sq, 0);
    }
    sq >> 3
}

/// Rank as seen from `c`'s side (0 = its own back rank).
#[verifier::allow_in_spec]
pub fn relative_rank(c: Color, sq: Square) -> u8
    requires
        sq < 64,
    returns
        (match c {
            Color::White => sq / 8,
            Color::Black => (7 - sq / 8) as u8,
        }),
{
    proof {
        lemma_square_bits(sq, sq / 8);
        lemma_square_bits(sq / 8, 0);
    }
    match c {
        Color::White => rank_of(sq),
        Color::Black => rank_of(sq) ^ 7,
    }
}

/// The square mirrored to `c`'s point of view.
#[verifier::allow_in_spec]
pub fn relative_square(c: Color, sq: Square) -> Square
    requires
        sq < 64,
    returns
        (match c {
            Color::White => sq,
            Color::Black => ((7 - sq / 8) * 8 + sq % 8) as Square,
        }),
{
    proof {
        lemma_square_bits(sq, 0);
    }
    match c {
        Color::White => sq,
        Color::Black => sq ^ 56,
    }
}

/// The square mirrored across the middle of the board.
#[verifier::allow_in_spec]
pub fn flip_rank(sq: Square) -> Square
    requires
        sq < 64,
    returns
        ((7 - sq / 8) * 8 + sq % 8) as Square,
{
    proof {
        lemma_square_bits(sq, 0);
    }
    sq ^ 56
}

/// Mirroring twice gives the square back.
pub proof fn flip_rank_is_involution(sq: Square)
    requires
        sq < 64,
    ensures
        flip_rank(sq) < 64,
        flip_rank(flip_rank(sq)) == sq,
{
}

#[verifier::allow_in_spec]
pub fn is_square_ok(sq: i32) -> bool
    returns
        0 <= sq < 64,
{
    sq >= 0 && sq < 64
}

// Castling rights bitfield.
pub const WHITE_OO: u8 = 1;
pub const WHITE_OOO: u8 = 2;
pub const BLACK_OO: u8 = 4;
pub const BLACK_OOO: u8 = 8;
pub const WHITE_CASTLING: u8 = 3;
pub const BLACK_CASTLING: u8 = 12;
pub const ANY_CASTLING: u8 = 15;

#[verifier::allow_in_spec]
pub fn castling_rights_of(c: Color) -> u8
    returns
        (match c {
            Color::White => WHITE_CASTLING,
            Color::Black => BLACK_CASTLING,
        }),
{
    match c {
        Color::White => WHITE_CASTLING,
        Color::Black => BLACK_CASTLING,
    }
}

/// Move flavours packed into the top two bits of a `Move`.
#[derive(Clone, Copy, PartialEq, Eq, Debug, Structural)]
pub enum MoveType {
    Normal,
    Promotion,
    EnPassant,
    Castling,
}

impl MoveType {
    /// The flavour's two-bit code.
    pub open spec fn code(self) -> int {
        match self {
            MoveType::Normal => 0,
            MoveType::Promotion => 1,
            MoveType::EnPassant => 2,
            MoveType::Castling => 3,
        }
    }
}

/// 16-bit move: bits 0-5 destination, 6-11 origin, 12-13 promotion piece
/// (knight = 0 ... queen = 3), 14-15 move type. Castling is encoded as "king captures
/// own rook" so the same code serves Chess960. A crazyhouse drop has equal origin and
/// destination and the piece type in the top nibble.
#[derive(Clone, Copy, PartialEq, Eq, Debug, Hash, Structural)]
pub struct Move(pub u16);

/// Bit identities behind the move encoding.
proof fn lemma_move_bits(m: u16, from: u16, to: u16, p: u16, t: u16)
    by (bit_vector)
    ensures
        (m >> 6) & 0x3f == (m / 64) % 64,
        m & 0x3f == m % 64,
        m & 0xfff == m % 4096,
        m >> 12 == m / 4096,
        m >> 14 == m / 16384,
        (m >> 12) & 3 == (m / 4096) % 4,
        m == (m / 4096) * 4096 + (m / 64) % 64 * 64 + m % 64,
        from < 64 && to < 64 ==> (from << 6) | to == from * 64 + to,
        from < 64 && to < 64 && p < 16 ==> ((p << 12) | (from << 6)) | to == p * 4096 + from * 64 + to,
        from < 64 && to < 64 && p < 4 && t < 4 ==> (((t << 14) | (p << 12)) | (from << 6)) | to
            == t * 16384 + p * 4096 + from * 64 + to,
{
}

impl Move {
    /// Origin square, as an integer.
    pub open spec fn from(self) -> int {
        ((self.0 / 64) % 64) as int
    }

    /// Destination square, as an integer.
    pub open spec fn to(self) -> int {
        (self.0 % 64) as int
    }

    /// "No move".
    #[verifier::allow_in_spec]
    pub fn none() -> Move
        returns
            Move(0),
    {
        Move(0)
    }

    /// All bits set: never a real move or a drop.
    #[verifier::allow_in_spec]
    pub fn null() -> Move
        returns
            Move(0xFFFF),
    {
        Move(0xFFFF)
    }

    /// Crazyhouse drop of `pt` on `sq`. A pawn drop on a1 would collide with the empty
    /// move, but pawns never drop on the first rank.
    #[verifier::allow_in_spec]
    pub fn drop(pt: PieceType, sq: Square) -> Move
        requires
            sq < 64,
        returns
            Move((pt.idx() * 4096 + sq * 64 + sq) as u16),
    {
        proof {
            lemma_move_bits(0, sq as u16, sq as u16, pt.idx() as u16, 0);
        }
        Move(((pt.idx() as u16) << 12) | ((sq as u16) << 6) | sq as u16)
    }

    #[verifier::allow_in_spec]
    pub fn is_drop(self) -> bool
        returns
            self.0 != 0 && self.0 % 64 == (self.0 / 64) % 64 && self.0 / 4096 <= 4,
    {
        proof {
            lemma_move_bits(self.0, 0, 0, 0, 0);
        }
        self.0 != 0 && (self.0 & 0x3f) == ((self.0 >> 6) & 0x3f) && (self.0 >> 12) <= 4
    }

    #[verifier::allow_in_spec]
    pub fn drop_piece(self) -> PieceType
        returns
            PieceType::from_idx((self.0 / 4096) as usize),
    {
        proof {
            lemma_move_bits(self.0, 0, 0, 0, 0);
        }
        PieceType::from_idx((self.0 >> 12) as usize)
    }

    #[verifier::allow_in_spec]
    pub fn new(from: Square, to: Square) -> Move
        requires
            from < 64,
            to < 64,
        returns
            Move((from * 64 + to) as u16),
    {
        proof {
            lemma_move_bits(0, from as u16, to as u16, 0, 0);
        }
        Move(((from as u16) << 6) | to as u16)
    }

    /// A move of flavour `mt`; `promo` counts from the knight up, anything below is a
    /// knight and a king wraps to a knight.
    #[verifier::allow_in_spec]
    pub fn make(from: Square, to: Square, mt: MoveType, promo: PieceType) -> Move
        requires
            from < 64,
            to < 64,
        returns
            Move(
                (mt.code() * 16384 + (match promo {
                    PieceType::Bishop => 1int,
                    PieceType::Rook => 2int,
                    PieceType::Queen => 3int,
                    _ => 0int,
                }) * 4096 + from * 64 + to) as u16,
            ),
    {
        let p: u16 = match promo {
            PieceType::Bishop => 1,
            PieceType::Rook => 2,
            PieceType::Queen => 3,
            _ => 0,
        };
        let t: u16 = match mt {
            MoveType::Normal => 0,
            MoveType::Promotion => 1,
            MoveType::EnPassant => 2,
            MoveType::Castling => 3,
        };
        proof {
            lemma_move_bits(0, from as u16, to as u16, p, t);
        }
        Move((t << 14) | (p << 12) | ((from as u16) << 6) | to as u16)
    }

    #[verifier::allow_in_spec]
    pub fn from_sq(self) -> Square
        returns
            ((self.0 / 64) % 64) as Square,
    {
        proof {
            lemma_move_bits(self.0, 0, 0, 0, 0);
        }
        ((self.0 >> 6) & 0x3f) as Square
    }

    #[verifier::allow_in_spec]
    pub fn to_sq(self) -> Square
        returns
            (self.0 % 64) as Square,
    {
        proof {
            lemma_move_bits(self.0, 0, 0, 0, 0);
        }
        (self.0 & 0x3f) as Square
    }

    /// `from * 64 + to`, the butterfly index used by history tables.
    #[verifier::allow_in_spec]
    pub fn from_to(self) -> usize
        returns
            (self.0 % 4096) as usize,
    {
        proof {
            lemma_move_bits(self.0, 0, 0, 0, 0);
        }
        (self.0 & 0xfff) as usize
    }

    #[verifier::allow_in_spec]
    pub fn move_type(self) -> MoveType
        returns
            (if self.is_drop() || self.0 / 16384 == 0 {
                MoveType::Normal
            } else if self.0 / 16384 == 1 {
                MoveType::Promotion
            } else if self.0 / 16384 == 2 {
                MoveType::EnPassant
            } else {
                MoveType::Castling
            }),
    {
        proof {
            lemma_move_bits(self.0, 0, 0, 0, 0);
        }
        if self.is_drop() {
            return MoveType::Normal;
        }
        match self.0 >> 14 {
            0 => MoveType::Normal,
            1 => MoveType::Promotion,
            2 => MoveType::EnPassant,
            _ => MoveType::Castling,
        }
    }

    #[verifier::allow_in_spec]
    pub fn promotion(self) -> PieceType
        returns
            PieceType::from_idx(((self.0 / 4096) % 4 + 1) as usize),
    {
        proof {
            lemma_move_bits(self.0, 0, 0, 0, 0);
        }
        PieceType::from_idx((((self.0 >> 12) & 3) + 1) as usize)
    }

    #[verifier::allow_in_spec]
    pub fn is_promotion(self) -> bool
        returns
            self.0 / 16384 == 1 && !self.is_drop(),
    {
        proof {
            lemma_move_bits(self.0, 0, 0, 0, 0);
        }
        self.0 >> 14 == 1 && !self.is_drop()
    }

    #[verifier::allow_in_spec]
    pub fn is_castling(self) -> bool
        returns
            self.0 / 16384 == 3 && !self.is_drop(),
    {
        proof {
            lemma_move_bits(self.0, 0, 0, 0, 0);
        }
        self.0 >> 14 == 3 && !self.is_drop()
    }

    #[verifier::allow_in_spec]
    pub fn is_en_passant(self) -> bool
        returns
            self.0 / 16384 == 2 && !self.is_drop(),
    {
        proof {
            lemma_move_bits(self.0, 0, 0, 0, 0);
        }
        self.0 >> 14 == 2 && !self.is_drop()
    }

    #[verifier::allow_in_spec]
    pub fn is_none(self) -> bool
        returns
            self.0 == 0,
    {
        self.0 == 0
    }

    #[verifier::allow_in_spec]
    pub fn is_some(self) -> bool
        returns
            self.0 != 0,
    {
        self.0 != 0
    }

    /// A real move (or drop): anything but the empty and the null move.
    #[verifier::allow_in_spec]
    pub fn is_ok(self) -> bool
        returns
            self.0 != 0 && self.0 != 0xFFFF,
    {
        self.0 != 0 && self.0 != 0xFFFF
    }
}

/// What `Move::make` packs, the accessors give back: for squares that differ, the origin,
/// the destination, the flavour and, for a promotion, the piece.
pub proof fn move_round_trip(from: Square, to: Square, mt: MoveType, promo: PieceType)
    requires
        from < 64,
        to < 64,
        from != to,
    ensures
        Move::make(from, to, mt, promo).from_sq() == from,
        Move::make(from, to, mt, promo).to_sq() == to,
        Move::make(from, to, mt, promo).move_type() == mt,
        promo != PieceType::Pawn && promo != PieceType::King ==> Move::make(
            from,
            to,
            mt,
            promo,
        ).promotion() == promo,
        Move::make(from, to, MoveType::Normal, PieceType::Knight) == Move::new(from, to),
{
}

/// A drop keeps its piece and square and is told apart from every other move.
pub proof fn drop_round_trip(pt: PieceType, sq: Square)
    requires
        sq < 64,
        pt != PieceType::King,
        !(pt == PieceType::Pawn && sq == 0),
    ensures
        Move::drop(pt, sq).is_drop(),
        Move::drop(pt, sq).drop_piece() == pt,
        Move::drop(pt, sq).to_sq() == sq,
        Move::drop(pt, sq).is_ok(),
{
}

/// Bound type of a stored score (two bits).
#[derive(Clone, Copy, PartialEq, Eq, Debug, Structural)]
pub enum Bound {
    /// No bound is stored.
    Empty,
    /// Score <= alpha (fail low, all-node)
    Upper,
    /// Score >= beta (fail high, cut-node)
    Lower,
    Exact,
}

impl Bound {
    /// The bound's two-bit code.
    #[verifier::allow_in_spec]
    pub fn code(self) -> u8
        returns
            (match self {
                Bound::Empty => 0u8,
                Bound::Upper => 1u8,
                Bound::Lower => 2u8,
                Bound::Exact => 3u8,
            }),
    {
        match self {
            Bound::Empty => 0,
            Bound::Upper => 1,
            Bound::Lower => 2,
            Bound::Exact => 3,
        }
    }

    /// The bound whose code is in the low two bits of `v`.
    #[verifier::allow_in_spec]
    pub fn from_u8(v: u8) -> Bound
        returns
            (if v % 4 == 0 {
                Bound::Empty
            } else if v % 4 == 1 {
                Bound::Upper
            } else if v % 4 == 2 {
                Bound::Lower
            } else {
                Bound::Exact
            }),
    {
        match v % 4 {
            0 => Bound::Empty,
            1 => Bound::Upper,
            2 => Bound::Lower,
            _ => Bound::Exact,
        }
    }

    #[verifier::allow_in_spec]
    pub fn has_lower(self) -> bool
        returns
            self == Bound::Lower || self == Bound::Exact,
    {
        match self {
            Bound::Lower | Bound::Exact => true,
            _ => false,
        }
    }

    #[verifier::allow_in_spec]
    pub fn has_upper(self) -> bool
        returns
            self == Bound::Upper || self == Bound::Exact,
    {
        match self {
            Bound::Upper | Bound::Exact => true,
            _ => false,
        }
    }
}

/// Decoding a bound's code gives the bound back.
pub proof fn bound_round_trip(b: Bound)
    ensures
        Bound::from_u8(b.code()) == b,
{
}

/// Room a move list reserves up front. Standard chess peaks at 218 legal moves;
/// crazyhouse drops can take a position well past that.
pub const MAX_MOVES: usize = 512;

/// A list of moves.
#[derive(Clone)]
pub struct MoveList {
    moves: Vec<Move>,
}

impl View for MoveList {
    type V = Seq<Move>;

    closed spec fn view(&self) -> Seq<Move> {
        self.moves@
    }
}

impl Default for MoveList {
    fn default() -> (r: Self)
        ensures
            r@ == Seq::<Move>::empty(),
    {
        Self::new()
    }
}

impl MoveList {
    pub fn new() -> (r: MoveList)
        ensures
            r@ == Seq::<Move>::empty(),
    {
        MoveList { moves: Vec::with_capacity(MAX_MOVES) }
    }

    pub fn push(&mut self, m: Move)
        ensures
            final(self)@ == old(self)@.push(m),
    {
        self.moves.push(m);
    }

    pub fn len(&self) -> (r: usize)
        ensures
            r == self@.len(),
    {
        self.moves.len()
    }

    pub fn is_empty(&self) -> (r: bool)
        ensures
            r == (self@.len() == 0),
    {
        self.moves.len() == 0
    }

    pub fn clear(&mut self)
        ensures
            final(self)@ == Seq::<Move>::empty(),
    {
        self.moves.clear();
    }

    pub fn as_slice(&self) -> (r: &[Move])
        ensures
            r@ == self@,
    {
        self.moves.as_slice()
    }

    pub fn as_mut_slice(&mut self) -> (r: &mut [Move])
        ensures
            r@ == old(self)@,
            final(self)@ == final(r)@,
    {
        self.moves.as_mut_slice()
    }

    /// The moves in order.
    pub fn iter(&self) -> (r: std::slice::Iter<'_, Move>)
        ensures
            vstd::std_specs::iter::IteratorSpec::remaining(&r) == self@.as_ref(),
    {
        self.moves.as_slice().iter()
    }

    /// The move at index `i`.
    pub fn get(&self, i: usize) -> (r: Move)
        requires
            i < self@.len(),
        ensures
            r == self@[i as int],
    {
        self.moves[i]
    }

    /// Replaces the move at index `i`.
    pub fn set(&mut self, i: usize, m: Move)
        requires
            i < old(self)@.len(),
        ensures
            final(self)@ == old(self)@.update(i as int, m),
    {
        self.moves[i] = m;
    }

    pub fn contains(&self, m: Move) -> (r: bool)
        ensures
            r == self@.contains(m),
    {
        let mut i: usize = 0;
        while i < self.moves.len()
            invariant
                i <= self.moves@.len(),
                forall|j: int| 0 <= j < i ==> self.moves@[j] != m,
            decreases self.moves@.len() - i,
        {
            if self.moves[i] == m {
                return true;
            }
            i += 1;
        }
        false
    }

    pub fn swap(&mut self, a: usize, b: usize)
        requires
            a < old(self)@.len(),
            b < old(self)@.len(),
        ensures
            final(self)@ == old(self)@.update(a as int, old(self)@[b as int]).update(
                b as int,
                old(self)@[a as int],
            ),
    {
        let x = self.moves[a];
        let y = self.moves[b];
        self.moves[a] = y;
        self.moves[b] = x;
    }

    /// Takes the move at `i` out, filling its place with the last one.
    pub fn swap_remove(&mut self, i: usize) -> (r: Move)
        requires
            i < old(self)@.len(),
        ensures
            r == old(self)@[i as int],
            final(self)@ == old(self)@.update(i as int, old(self)@.last()).drop_last(),
    {
        self.moves.swap_remove(i)
    }
}

} // verus!
