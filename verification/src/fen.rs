//! Setting up positions from FEN.

use std::sync::Arc;

use vstd::prelude::*;

use crate::bitboard::{between_bb, pawn_attacks, sq_bb, test_bit};
use crate::bits::{group_has, holds, lemma_ext, lemma_lowest, lemma_nonzero, lowest};
use crate::fenread::{
    find_char, find_plus_field, read_checks, read_integer, read_letter, read_pocket, read_square,
    slice_of, split_fields, texts, trim_right,
};
use crate::fenspec::{
    castling_color, castling_from, castling_rook, ep_kept, no_castling, parse, place_from,
    pocket_of, rook_down, rook_up, setup_of, start_placing, with_right, Castling, FenError, Placing,
    Setup,
};
use crate::geometry::{lemma_pawn_hit_mutual, on_board, pawn_hit};
use crate::keys::{
    full_key, group_key_below, marks_below, material_below, pile_key, piece_keys_match,
    pocket_below, variant_key, Group,
};
use crate::position::Position;
use crate::rules::{
    castling_right, count, count_below, king, lemma_count_bound, lemma_occ, lemma_one_king,
    one_king, pawn, right_color, right_king_to, right_rook_to, rook, single_right, Board, PosView,
};
use crate::state::StateInfo;
use crate::text::{chars_of, matches_literal, to_upper};
use crate::types::{
    file_of, relative_rank, relative_square, Bitboard, Color, Piece, PieceType, Square, PIECE_NB,
    PIECE_TYPE_NB, SQ_NONE,
};
use crate::variant::Variant;
use crate::zobrist::{psq_key, ZobristKeys};

verus! {

broadcast use {group_has, lemma_occ};

pub const START_FEN: &'static str = "rnbqkbnr/pppppppp/8/8/8/8/PPPPPPPP/RNBQKBNR w KQkq - 0 1";

proof fn lemma_count_none(b: Board, p: int, n: nat)
    requires
        n <= b.len(),
        forall|s: int| 0 <= s < n ==> (#[trigger] b[s]).0 == 12,
        0 <= p < 12,
    ensures
        count_below(b, p, n) == 0,
    decreases n,
{
    if n > 0 {
        lemma_count_none(b, p, (n - 1) as nat);
    }
}

proof fn bv_grant(m: u8, cr: u8, x: u8)
    by (bit_vector)
    requires
        cr == 1 || cr == 2 || cr == 4 || cr == 8,
        x == 1 || x == 2 || x == 4 || x == 8,
    ensures
        (m | cr) & x != 0 <==> m & x != 0 || cr == x,
        m < 16 ==> m | cr < 16,
        (m | cr) & cr != 0,
        0u8 & x == 0,
{
}

/// Castling rights stay backed where only counters differ.
proof fn lemma_castling_carries(v: PosView, w: PosView)
    requires
        v.castling_ok(),
        w.board == v.board,
        w.mask == v.mask,
        w.rooks == v.rooks,
        w.path == v.path,
        w.variant == v.variant,
        w.st().castling_rights == v.st().castling_rights,
    ensures
        w.castling_ok(),
{
    if v.variant.castling_allowed() {
        assert forall|x: u8| single_right(x) && #[trigger] w.has_right(x) implies w.right_ok(
            x,
        ) by {
            assert(v.has_right(x));
            assert(v.right_ok(x));
        }
    }
}

/// No rights need no backing.
pub(crate) proof fn lemma_no_rights(v: PosView)
    requires
        v.st().castling_rights == 0,
    ensures
        v.castling_ok(),
{
    assert forall|x: u8| single_right(x) && #[trigger] v.has_right(x) implies v.right_ok(x) by {
        bv_grant(0, x, x);
    }
}

/// What a position set up from a FEN text looks like.
pub open spec fn describes(s: Setup, variant: Variant, v: PosView) -> bool {
    let st = v.st();
    &&& v.board == s.board
    &&& v.stm == s.stm
    &&& v.game_ply == s.game_ply
    &&& v.chess960 == (variant == Variant::Chess960)
    &&& v.variant == variant
    &&& v.mask == s.castling.mask
    &&& v.rooks == s.castling.rooks
    &&& v.states.len() == 1
    &&& st.castling_rights == s.castling.rights
    &&& st.rule50 == s.rule50
    &&& st.plies_from_null == 0
    &&& st.ep_square == s.ep
    &&& st.captured_piece == Piece(12)
    &&& st.repetition == 0
    &&& st.checks_given@[0] == s.checks.0
    &&& st.checks_given@[1] == s.checks.1
    &&& forall|c: int, p: int|
        0 <= c < 2 && 0 <= p < 5 ==> #[trigger] st.hand@[c]@[p] == pocket_of(s.pocket, 6 * c + p)
    &&& st.promoted == s.marks
    &&& if variant.royal_king() {
        v.checkers_exact(st.checkers)
    } else {
        st.checkers == 0
    }
    &&& v.keys_match()
}

/// Key of the variant-only state.
fn variant_state_key(keys: &ZobristKeys, st: &StateInfo) -> (r: u64)
    requires
        keys.wf(),
        st.checks_given@[0] <= 3,
        st.checks_given@[1] <= 3,
        forall|c: int, p: int| 0 <= c < 2 && 0 <= p < 5 ==> #[trigger] st.hand@[c]@[p] <= 16,
    ensures
        r == variant_key(*st),
{
    let white = keys.checks[0][st.checks_given[0] as usize] ^ pocket_state_key(keys, st, 0);
    let black = keys.checks[1][st.checks_given[1] as usize] ^ pocket_state_key(keys, st, 1);
    let mut marks: u64 = 0;
    let mut s: usize = 0;
    while s < 64
        invariant
            s <= 64,
            keys.wf(),
            marks == marks_below(st.promoted, s as nat),
        decreases 64 - s,
    {
        if test_bit(st.promoted, s as Square) {
            marks = marks ^ keys.promoted[s];
        } else {
            proof {
                lemma_ext(marks ^ 0, marks);
            }
        }
        s += 1;
    }
    (white ^ black) ^ marks
}

fn pocket_state_key(keys: &ZobristKeys, st: &StateInfo, c: usize) -> (r: u64)
    requires
        keys.wf(),
        c < 2,
        forall|d: int, p: int| 0 <= d < 2 && 0 <= p < 5 ==> #[trigger] st.hand@[d]@[p] <= 16,
    ensures
        r == pocket_below(*st, c as int, 5),
{
    let mut key: u64 = 0;
    let mut p: usize = 0;
    while p < 5
        invariant
            p <= 5,
            c < 2,
            keys.wf(),
            forall|d: int, q: int|
                0 <= d < 2 && 0 <= q < 5 ==> #[trigger] st.hand@[d]@[q] <= 16,
            key == pocket_below(*st, c as int, p as nat),
        decreases 5 - p,
    {
        assert(st.hand@[c as int]@[p as int] <= 16);
        key = key ^ keys.hand[c][p][st.hand[c][p] as usize];
        p += 1;
    }
    key
}

impl Position {
    /// An empty board with White to move.
    pub(crate) fn empty(variant: Variant) -> (r: Position)
        ensures
            r.board_ok(),
            r.keys.wf(),
            r@.board == start_placing().board,
            r@.stm == Color::White,
            r@.variant == variant,
            r@.chess960 == (variant == Variant::Chess960),
            r@.mask == no_castling().mask,
            r@.rooks == no_castling().rooks,
            r@.path.len() == 16,
            r@.states.len() == 1,
            r@.st().castling_rights == 0,
            r@.st().plies_from_null == 0,
            r@.st().ep_square == SQ_NONE,
            r@.st().captured_piece == Piece(12),
            r@.st().repetition == 0,
            r@.st().checkers == 0,
            r@.st().checks_given@[0] == 0,
            r@.st().checks_given@[1] == 0,
            forall|c: int, p: int|
                0 <= c < 2 && 0 <= p < 5 ==> #[trigger] r@.st().hand@[c]@[p] == 0,
            r@.st().promoted == 0,
            !r@.st().must_capture,
    {
        let mut states: Vec<StateInfo> = Vec::with_capacity(1024);
        states.push(StateInfo::empty());
        let pos = Position {
            board: [Piece(12);64],
            by_type: [0;PIECE_TYPE_NB],
            by_color: [0;2],
            piece_count: [0;PIECE_NB],
            side_to_move: Color::White,
            game_ply: 0,
            chess960: variant == Variant::Chess960,
            variant,
            castling_rights_mask: [0;64],
            castling_rook_square: [SQ_NONE;16],
            castling_path: [0;16],
            states,
            keys: Arc::new(ZobristKeys::new()),
        };
        proof {
            vstd::array::axiom_spec_array_fill_for_copy_type::<Piece, 64>(Piece(12));
            assert(pos@.board =~= start_placing().board);
            assert(pos@.mask =~= no_castling().mask);
            assert(pos@.rooks =~= no_castling().rooks);
            assert forall|p: int| 0 <= p < 12 implies #[trigger] pos.piece_count@[p] == count(
                pos.board@,
                p,
            ) by {
                lemma_count_none(pos.board@, p, 64);
            }
        }
        pos
    }

    /// Fills the board from a piece placement text; gives the marked squares.
    pub(crate) fn place_pieces(&mut self, s: &Vec<char>) -> (r: Result<Bitboard, FenError>)
        requires
            old(self).board_ok(),
            old(self)@.board == start_placing().board,
        ensures
            final(self).board_ok(),
            final(self).keys == old(self).keys,
            final(self)@ == (PosView { board: final(self)@.board, ..old(self)@ }),
            match place_from(s@, 0, start_placing()) {
                Ok(p) => r == Ok::<Bitboard, FenError>(p.marks) && final(self)@.board == p.board,
                Err(e) => r == Err::<Bitboard, FenError>(e),
            },
    {
        let ghost v = self@;
        let ghost goal = place_from(s@, 0, start_placing());
        let mut sq: i128 = 56;
        let mut last: i128 = -1;
        let mut marks: u64 = 0;
        let mut i: usize = 0;
        let ghost mut p = start_placing();
        while i < s.len()
            invariant
                i <= s@.len(),
                v == old(self)@,
                self.board_ok(),
                self.keys == old(self).keys,
                self@ == (PosView { board: self@.board, ..v }),
                p == (Placing {
                    board: self@.board,
                    sq: sq as int,
                    last: last as int,
                    marks,
                }),
                -1 <= last < 64,
                56 - 16 * i <= sq <= 56 + 16 * i,
                goal == place_from(s@, 0, start_placing()),
                place_from(s@, i as int, p) == goal,
            decreases s@.len() - i,
        {
            let c = s[i];
            if '0' <= c && c <= '9' {
                let d: i128 = (c as u32 - '0' as u32) as i128;
                if d < 1 || d > 8 {
                    return Err(FenError::BadDigit(c));
                }
                sq = sq + d;
            } else if c == '/' {
                sq = sq - 16;
            } else if c == '~' {
                if last >= 0 {
                    marks = marks | sq_bb(last as Square);
                }
            } else {
                match read_letter(c) {
                    Some(pc) => {
                        if sq < 0 || sq > 63 {
                            return Err(FenError::BoardOverflow);
                        }
                        let ghost before = self@.board;
                        // The piece named last stands.
                        if !self.is_empty_sq(sq as Square) {
                            self.remove_piece(sq as Square);
                        }
                        self.put_piece(pc, sq as Square);
                        assert(self@.board =~= before.update(sq as int, pc));
                        last = sq;
                        sq = sq + 1;
                    },
                    None => {
                        return Err(FenError::BadCharacter(c));
                    },
                }
            }
            proof {
                p = Placing { board: self@.board, sq: sq as int, last: last as int, marks };
            }
            i += 1;
        }
        Ok(marks)
    }

    /// Grants a castling right with the rook on `rfrom`.
    pub(crate) fn set_castling_right(&mut self, c: Color, rfrom: Square)
        requires
            old(self).ready(),
            old(self)@.variant.castling_allowed(),
            old(self)@.castling_ok(),
            old(self)@.st().castling_rights < 16,
            rfrom < 64,
            old(self)@.board[rfrom as int] == rook(c),
        ensures
            final(self).ready(),
            final(self).keys == old(self).keys,
            final(self)@.castling_ok(),
            final(self)@.st().castling_rights < 16,
            final(self)@ == (PosView {
                mask: final(self)@.mask,
                rooks: final(self)@.rooks,
                path: final(self)@.path,
                states: final(self)@.states,
                ..old(self)@
            }),
            final(self)@.states == old(self)@.states.drop_last().push(final(self)@.st()),
            final(self)@.st() == (StateInfo {
                castling_rights: final(self)@.st().castling_rights,
                ..old(self)@.st()
            }),
            (Castling {
                rights: final(self)@.st().castling_rights,
                mask: final(self)@.mask,
                rooks: final(self)@.rooks,
            }) == with_right(
                old(self)@.board,
                Castling {
                    rights: old(self)@.st().castling_rights,
                    mask: old(self)@.mask,
                    rooks: old(self)@.rooks,
                },
                c,
                rfrom as int,
            ),
    {
        let ghost v = self@;
        proof {
            assert(one_king(v.board, c));
            assert(v.board[v.ksq(c)] == king(c));
        }
        let kfrom = self.king_square(c);
        let kingside = rfrom > kfrom;
        let cr: u8 = match c {
            Color::White => if kingside {
                1
            } else {
                2
            },
            Color::Black => if kingside {
                4
            } else {
                8
            },
        };
        assert(cr == castling_right(c, rfrom as int > kfrom as int));
        let n: usize = self.states.len() - 1;
        let mut st = self.states[n];
        st.castling_rights = st.castling_rights | cr;
        self.states[n] = st;
        self.castling_rights_mask[kfrom as usize] = self.castling_rights_mask[kfrom as usize] | cr;
        self.castling_rights_mask[rfrom as usize] = self.castling_rights_mask[rfrom as usize] | cr;
        self.castling_rook_square[cr as usize] = rfrom;
        let kto = relative_square(
            c,
            if kingside {
                6
            } else {
                2
            },
        );
        let rto = relative_square(
            c,
            if kingside {
                5
            } else {
                3
            },
        );
        let path = (between_bb(rfrom, rto) | between_bb(kfrom, kto)) & !(sq_bb(kfrom) | sq_bb(
            rfrom,
        ));
        self.castling_path[cr as usize] = path;
        proof {
            let w = self@;
            bv_grant(v.st().castling_rights, cr, cr);
            assert(w.states =~= v.states.drop_last().push(st));
            assert(w.st() == st);
            assert forall|x: u8| single_right(x) && #[trigger] w.has_right(x) implies w.right_ok(
                x,
            ) by {
                bv_grant(v.st().castling_rights, cr, x);
                let d = right_color(x);
                let k = w.ksq(d);
                if x == cr {
                    bv_grant(v.mask[kfrom as int], cr, cr);
                    bv_grant(v.mask[rfrom as int], cr, cr);
                    assert(kto == right_king_to(cr) && rto == right_rook_to(cr));
                    assert(w.right_ok(x));
                } else {
                    assert(v.has_right(x));
                    assert(v.right_ok(x));
                    let r = v.rooks[x as int] as int;
                    bv_grant(v.mask[k], cr, x);
                    bv_grant(v.mask[r], cr, x);
                    assert(w.right_ok(x));
                }
            }
            let x = Castling {
                rights: v.st().castling_rights,
                mask: v.mask,
                rooks: v.rooks,
            };
            let y = with_right(v.board, x, c, rfrom as int);
            assert(w.mask =~= y.mask);
            assert(w.rooks =~= y.rooks);
        }
    }

    /// The rook a castling character names.
    fn find_castling_rook(&self, ch: char) -> (r: Option<Square>)
        requires
            self.ready(),
            self@.variant.royal_king(),
        ensures
            match castling_rook(self@.board, ch) {
                Some(s) => r == Some(s as Square) && 0 <= s < 64 && self@.board[s] == rook(
                    castling_color(ch),
                ),
                None => r is None,
            },
    {
        let c = if 'A' <= ch && ch <= 'Z' {
            Color::White
        } else {
            Color::Black
        };
        let rk = Piece::make(c, PieceType::Rook);
        proof {
            assert(one_king(self@.board, c));
            assert(self@.board[self@.ksq(c)] == king(c));
        }
        let k = self.king_square(c);
        let up = to_upper(ch);
        if up == 'K' {
            let top = relative_square(c, 7);
            let mut s: Square = top;
            while s > k && self.piece_on(s) != rk
                invariant
                    s <= top < 64,
                    k < 64,
                    rook_down(self@.board, rk, k as int, s as int) == rook_down(
                        self@.board,
                        rk,
                        k as int,
                        top as int,
                    ),
                decreases s,
            {
                s = s - 1;
            }
            if s > k {
                Some(s)
            } else {
                None
            }
        } else if up == 'Q' {
            let bottom = relative_square(c, 0);
            let mut s: Square = bottom;
            while s < k && self.piece_on(s) != rk
                invariant
                    bottom <= s < 64,
                    k < 64,
                    rook_up(self@.board, rk, k as int, s as int) == rook_up(
                        self@.board,
                        rk,
                        k as int,
                        bottom as int,
                    ),
                decreases 64 - s,
            {
                s = s + 1;
            }
            if s < k {
                Some(s)
            } else {
                None
            }
        } else if 'A' <= up && up <= 'H' {
            let s: Square = (up as u8 - 'A' as u8) + relative_square(c, 0);
            if self.piece_on(s) == rk {
                Some(s)
            } else {
                None
            }
        } else {
            None
        }
    }

    /// Grants every right of a castling field.
    fn read_castling(&mut self, s: &Vec<char>)
        requires
            old(self).ready(),
            old(self)@.variant.castling_allowed(),
            old(self)@.castling_ok(),
            old(self)@.st().castling_rights < 16,
        ensures
            final(self).ready(),
            final(self).keys == old(self).keys,
            final(self)@.castling_ok(),
            final(self)@.st().castling_rights < 16,
            final(self)@ == (PosView {
                mask: final(self)@.mask,
                rooks: final(self)@.rooks,
                path: final(self)@.path,
                states: final(self)@.states,
                ..old(self)@
            }),
            final(self)@.states == old(self)@.states.drop_last().push(final(self)@.st()),
            final(self)@.st() == (StateInfo {
                castling_rights: final(self)@.st().castling_rights,
                ..old(self)@.st()
            }),
            (Castling {
                rights: final(self)@.st().castling_rights,
                mask: final(self)@.mask,
                rooks: final(self)@.rooks,
            }) == castling_from(
                old(self)@.board,
                s@,
                0,
                Castling {
                    rights: old(self)@.st().castling_rights,
                    mask: old(self)@.mask,
                    rooks: old(self)@.rooks,
                },
            ),
    {
        let ghost v = self@;
        let ghost x0 = Castling {
            rights: v.st().castling_rights,
            mask: v.mask,
            rooks: v.rooks,
        };
        let mut i: usize = 0;
        proof {
            assert(v.states =~= v.states.drop_last().push(v.st()));
        }
        while i < s.len()
            invariant
                i <= s@.len(),
                v == old(self)@,
                self.ready(),
                self.keys == old(self).keys,
                self@.variant.castling_allowed(),
                self@.castling_ok(),
                self@.st().castling_rights < 16,
                self@ == (PosView {
                    mask: self@.mask,
                    rooks: self@.rooks,
                    path: self@.path,
                    states: self@.states,
                    ..v
                }),
                self@.states == v.states.drop_last().push(self@.st()),
                self@.st() == (StateInfo {
                    castling_rights: self@.st().castling_rights,
                    ..v.st()
                }),
                castling_from(
                    v.board,
                    s@,
                    i as int,
                    Castling {
                        rights: self@.st().castling_rights,
                        mask: self@.mask,
                        rooks: self@.rooks,
                    },
                ) == castling_from(v.board, s@, 0, x0),
            decreases s@.len() - i,
        {
            let ch = s[i];
            if ch != '-' {
                let r = self.find_castling_rook(ch);
                match r {
                    Some(rsq) => {
                        let c = if 'A' <= ch && ch <= 'Z' {
                            Color::White
                        } else {
                            Color::Black
                        };
                        let ghost before = self@;
                        self.set_castling_right(c, rsq);
                        proof {
                            assert(self@.states =~= v.states.drop_last().push(self@.st()));
                        }
                    },
                    None => {},
                }
            }
            i += 1;
        }
    }

    /// Recomputes every derived field of the current state from the board.
    pub(crate) fn set_state(&mut self)
        requires
            old(self).ready(),
            old(self)@.counters_ok(),
            old(self)@.st().ep_square <= 64,
            !old(self)@.st().must_capture,
        ensures
            final(self).ready(),
            final(self).keys == old(self).keys,
            final(self)@ == (PosView {
                states: old(self)@.states.drop_last().push(final(self)@.st()),
                ..old(self)@
            }),
            final(self)@.st() == (StateInfo {
                key: final(self)@.st().key,
                pawn_key: final(self)@.st().pawn_key,
                material_key: final(self)@.st().material_key,
                nonpawn_key: final(self)@.st().nonpawn_key,
                minor_key: final(self)@.st().minor_key,
                checkers: final(self)@.st().checkers,
                repetition: 0,
                blockers_for_king: final(self)@.st().blockers_for_king,
                pinners: final(self)@.st().pinners,
                check_squares: final(self)@.st().check_squares,
                must_capture: final(self)@.st().must_capture,
                ..old(self)@.st()
            }),
            final(self)@.info_ok(),
            final(self)@.keys_match(),
            if old(self)@.variant.royal_king() {
                final(self)@.checkers_exact(final(self)@.st().checkers)
            } else {
                final(self)@.st().checkers == 0
            },
    {
        let ghost v = self@;
        let ghost b = v.board;
        let mut key: u64 = 0;
        let mut pawns: u64 = 0;
        let mut white: u64 = 0;
        let mut black: u64 = 0;
        let mut minors: u64 = 0;
        let mut s: usize = 0;
        while s < 64
            invariant
                s <= 64,
                self.ready(),
                self@ == v,
                b == v.board,
                key == group_key_below(b, Group::All, s as nat),
                pawns == group_key_below(b, Group::Pawns, s as nat),
                white == group_key_below(b, Group::Pieces(Color::White), s as nat),
                black == group_key_below(b, Group::Pieces(Color::Black), s as nat),
                minors == group_key_below(b, Group::Minors, s as nat),
            decreases 64 - s,
        {
            let pc = self.piece_on(s as Square);
            proof {
                lemma_ext(key ^ 0, key);
                lemma_ext(pawns ^ 0, pawns);
                lemma_ext(white ^ 0, white);
                lemma_ext(black ^ 0, black);
                lemma_ext(minors ^ 0, minors);
            }
            if pc.is_some() {
                let k = psq_key(&self.keys, pc, s as Square);
                key = key ^ k;
                match pc.piece_type() {
                    PieceType::Pawn => {
                        pawns = pawns ^ k;
                    },
                    pt => {
                        match pc.color() {
                            Color::White => {
                                white = white ^ k;
                            },
                            Color::Black => {
                                black = black ^ k;
                            },
                        }
                        if pt == PieceType::Knight || pt == PieceType::Bishop || pt
                            == PieceType::King {
                            minors = minors ^ k;
                        }
                    },
                }
            }
            s += 1;
        }
        let mut mat: u64 = 0;
        let mut p: usize = 0;
        while p < 12
            invariant
                p <= 12,
                self.ready(),
                self@ == v,
                b == v.board,
                mat == material_below(b, p as nat),
            decreases 12 - p,
        {
            proof {
                lemma_count_bound(b, p as int, 0);
            }
            let total: usize = self.piece_count[p] as usize;
            let mut pile: u64 = 0;
            let mut n: usize = 0;
            while n < total
                invariant
                    n <= total <= 64,
                    p < 12,
                    self.ready(),
                    pile == pile_key(p as int, n as nat),
                decreases total - n,
            {
                pile = pile ^ self.keys.psq[p][n];
                n += 1;
            }
            mat = mat ^ pile;
            p += 1;
        }
        let n: usize = self.states.len() - 1;
        let mut st = self.states[n];
        let ep: u64 = if st.ep_square != SQ_NONE {
            self.keys.en_passant[file_of(st.ep_square) as usize]
        } else {
            0
        };
        let side: u64 = match self.side_to_move {
            Color::White => 0,
            Color::Black => self.keys.side,
        };
        let full = (((key ^ ep) ^ side) ^ self.keys.castling[st.castling_rights as usize])
            ^ variant_state_key(&self.keys, &st);
        let us = self.side_to_move;
        let checkers: u64 = if self.variant.royal_king() {
            proof {
                assert(one_king(b, us));
                assert(b[v.ksq(us)] == king(us));
            }
            self.attackers_to(self.king_square(us), self.pieces()) & self.pieces_c(us.flip())
        } else {
            0
        };
        let ghost st0 = st;
        st.key = full;
        st.pawn_key = self.keys.no_pawns ^ pawns;
        st.material_key = mat;
        st.nonpawn_key = [white, black];
        st.minor_key = minors;
        st.checkers = checkers;
        st.repetition = 0;
        self.states[n] = st;
        proof {
            assert(self@.states =~= v.states.drop_last().push(st));
            assert(self@.st() == st);
        }
        self.set_check_info();
        proof {
            let w = self@;
            assert(w.states =~= v.states.drop_last().push(w.st()));
            crate::keys::lemma_pocket_same(st0, w.st(), 0, 5);
            crate::keys::lemma_pocket_same(st0, w.st(), 1, 5);
            assert(variant_key(w.st()) == variant_key(st0));
            assert(w.st().key == full_key(w.board, w.stm, w.st()));
            assert(piece_keys_match(w.board, w.st(), w.variant.royal_king()));
        }
    }

    /// Whether an en passant square is worth keeping: a capture on it is possible.
    fn ep_possible(&self, e: Square) -> (r: bool)
        requires
            self.ready(),
            e < 64,
        ensures
            r == ep_kept(self@.board, self@.stm, e as int),
    {
        let us = self.side_to_move;
        let them = us.flip();
        if relative_rank(us, e) != 5 {
            return false;
        }
        let up = us.forward();
        let behind: Square = (e as i32 - up) as Square;
        let ahead: Square = (e as i32 + up) as Square;
        let hitters = pawn_attacks(them, e) & self.pieces_cp(us, PieceType::Pawn);
        proof {
            let b = self@.board;
            assert forall|s: int| on_board(s) && #[trigger] b[s] == pawn(us) && pawn_hit(
                us,
                s,
                e as int,
            ) implies hitters != 0 by {
                lemma_pawn_hit_mutual(us, s, e as int);
                assert(holds(hitters, s));
                lemma_nonzero(hitters, s);
            }
            if hitters != 0 {
                lemma_lowest(hitters);
                let s = lowest(hitters);
                assert(holds(hitters, s));
                lemma_pawn_hit_mutual(us, s, e as int);
                assert(b[s] == pawn(us) && pawn_hit(us, s, e as int));
            }
        }
        hitters != 0 && self.piece_on(behind) == Piece::make(them, PieceType::Pawn)
            && self.is_empty_sq(e) && self.is_empty_sq(ahead)
    }

    /// Writes the counters of a freshly read position and derives the rest of its state.
    pub(crate) fn complete(
        &mut self,
        ep: Square,
        rule50: i32,
        game_ply: i32,
        checks: [u8; 2],
        hand: [[u8; 5]; 2],
        marks: Bitboard,
    )
        requires
            old(self).ready(),
            old(self)@.castling_ok(),
            old(self)@.st().castling_rights < 16,
            old(self)@.states.len() == 1,
            old(self)@.st().plies_from_null == 0,
            old(self)@.st().captured_piece == Piece(12),
            !old(self)@.st().must_capture,
            ep == 64 || (ep < 64 && ep_kept(old(self)@.board, old(self)@.stm, ep as int)),
            checks@[0] <= 3,
            checks@[1] <= 3,
            forall|c: int, p: int| 0 <= c < 2 && 0 <= p < 5 ==> #[trigger] hand@[c]@[p] <= 16,
        ensures
            final(self).wf(),
            final(self)@ == (PosView {
                game_ply: game_ply as int,
                states: final(self)@.states,
                ..old(self)@
            }),
            final(self)@.states.len() == 1,
            final(self)@.st().castling_rights == old(self)@.st().castling_rights,
            final(self)@.st().rule50 == rule50,
            final(self)@.st().plies_from_null == 0,
            final(self)@.st().ep_square == ep,
            final(self)@.st().captured_piece == Piece(12),
            final(self)@.st().repetition == 0,
            final(self)@.st().checks_given == checks,
            final(self)@.st().hand == hand,
            final(self)@.st().promoted == marks,
            final(self)@.keys_match(),
            if old(self)@.variant.royal_king() {
                final(self)@.checkers_exact(final(self)@.st().checkers)
            } else {
                final(self)@.st().checkers == 0
            },
    {
        let ghost v0 = self@;
        self.game_ply = game_ply;
        let n: usize = self.states.len() - 1;
        let mut st = self.states[n];
        st.ep_square = ep;
        st.rule50 = rule50;
        st.checks_given = checks;
        st.promoted = marks;
        st.hand = hand;
        self.states[n] = st;
        proof {
            assert(self@.st() == st);
            assert(self@.states =~= seq![st]);
        }
        self.set_state();
        proof {
            assert(self@.states =~= seq![self@.st()]);
            lemma_castling_carries(v0, self@);
        }
    }

    /// Sets up a position from the fields of a FEN text.
    fn from_fields(f: &Vec<Vec<char>>, checks: [u8; 2], variant: Variant) -> (r: Result<
        Position,
        FenError,
    >)
        requires
            f@.len() >= 2,
            checks@[0] <= 3,
            checks@[1] <= 3,
        ensures
            match setup_of(texts(f@), (checks@[0] as int, checks@[1] as int), variant) {
                Ok(s) => r matches Ok(p) && p.wf() && p.keys.wf() && describes(s, variant, p@),
                Err(e) => r == Err::<Position, FenError>(e),
            },
    {
        let ghost t = texts(f@);
        let ghost goal = setup_of(t, (checks@[0] as int, checks@[1] as int), variant);
        proof {
            assert(t.len() == f@.len());
            assert forall|i: int| 0 <= i < f@.len() implies #[trigger] t[i] == f@[i]@ by {}
        }
        let mut pos = Position::empty(variant);
        let cut = find_char(&f[0], '[');
        let body = slice_of(&f[0], 0, cut);
        let pocket: Vec<char> = if cut < f[0].len() {
            let rest = slice_of(&f[0], cut + 1, f[0].len());
            proof {
                assert(rest@ =~= f@[0]@.skip(cut + 1));
            }
            trim_right(rest, ']')
        } else {
            let none: Vec<char> = Vec::new();
            assert(none@ =~= seq![]);
            none
        };
        let marks = match pos.place_pieces(&body) {
            Ok(m) => m,
            Err(e) => {
                return Err(e);
            },
        };
        let ghost b = pos@.board;
        let hand = read_pocket(&pocket);
        if variant == Variant::Crazyhouse && hand.is_none() {
            return Err(FenError::PocketOverflow);
        }
        if variant.royal_king() && (pos.piece_count[5] != 1 || pos.piece_count[11] != 1) {
            return Err(FenError::Kings);
        }
        if matches_literal(&f[1], "w") {
            pos.side_to_move = Color::White;
        } else if matches_literal(&f[1], "b") {
            pos.side_to_move = Color::Black;
        } else {
            return Err(FenError::BadSide);
        }
        proof {
            if variant.royal_king() {
                lemma_one_king(b, Color::White);
                lemma_one_king(b, Color::Black);
            }
            assert(pos.ready());
            lemma_no_rights(pos@);
        }
        if f.len() > 2 && variant.castling_allowed() {
            proof {
                assert((Castling {
                    rights: pos@.st().castling_rights,
                    mask: pos@.mask,
                    rooks: pos@.rooks,
                }) =~= no_castling());
            }
            pos.read_castling(&f[2]);
        }
        let mut ep: Square = SQ_NONE;
        if f.len() > 3 && !matches_literal(&f[3], "-") {
            if let Some(e) = read_square(&f[3]) {
                if pos.ep_possible(e) {
                    ep = e;
                }
            }
        }
        let rule50: i32 = if f.len() > 4 {
            match read_integer(&f[4]) {
                Some(n) => n,
                None => 0,
            }
        } else {
            0
        };
        let number: i32 = if f.len() > 5 {
            match read_integer(&f[5]) {
                Some(n) => n,
                None => 1,
            }
        } else {
            1
        };
        let full: i64 = if number > 1 {
            2 * (number as i64 - 1)
        } else {
            0
        };
        let plies: i64 = full + (match pos.side_to_move {
            Color::White => 0,
            Color::Black => 1,
        });
        if plies > i32::MAX as i64 {
            return Err(FenError::MoveNumber);
        }
        let crazy = variant == Variant::Crazyhouse;
        let given = if variant == Variant::ThreeCheck {
            checks
        } else {
            [0, 0]
        };
        let mut pockets: [[u8; 5]; 2] = [[0;5];2];
        if crazy {
            if let Some(h) = hand {
                pockets = h;
            }
        }
        pos.complete(
            ep,
            rule50,
            plies as i32,
            given,
            pockets,
            if crazy {
                marks
            } else {
                0
            },
        );
        proof {
            let s = goal->Ok_0;
            if !crazy {
                assert(s.pocket =~= seq![]);
            }
            assert(describes(s, variant, pos@));
        }
        Ok(pos)
    }

    /// The position a FEN text describes in a variant.
    pub fn from_fen_variant(fen: &str, variant: Variant) -> (r: Result<Position, FenError>)
        ensures
            match parse(fen@, variant) {
                Ok(s) => r matches Ok(p) && p.wf() && p.keys.wf() && describes(s, variant, p@),
                Err(e) => r == Err::<Position, FenError>(e),
            },
    {
        let chars = chars_of(fen);
        let mut f = split_fields(&chars);
        let ghost t = texts(f@);
        assert(t.len() == f@.len());
        if f.len() < 2 {
            return Err(FenError::TooFewFields);
        }
        proof {
            assert(f@[0]@ == t[0]);
        }
        let i = find_plus_field(&f);
        if i < f.len() {
            let field = f.remove(i);
            let checks = read_checks(&field);
            proof {
                assert(texts(f@) =~= t.remove(i as int));
                assert(field@ == t[i as int]);
            }
            Position::from_fields(&f, checks, variant)
        } else {
            Position::from_fields(&f, [0, 0], variant)
        }
    }

    /// The position a FEN text describes under the standard rules.
    pub fn from_fen(fen: &str) -> (r: Result<Position, FenError>)
        ensures
            match parse(fen@, Variant::Standard) {
                Ok(s) => r matches Ok(p) && p.wf() && p.keys.wf() && describes(
                    s,
                    Variant::Standard,
                    p@,
                ),
                Err(e) => r == Err::<Position, FenError>(e),
            },
    {
        Position::from_fen_variant(fen, Variant::Standard)
    }
}

} // verus!
