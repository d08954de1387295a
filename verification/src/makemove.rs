//! Making and taking back moves: the board primitives, the incremental keys and state,
//! and null moves.

use vstd::prelude::*;

use crate::bitboard::{
    attacks_bb, bishop_attacks, knight_attacks, pawn_attacks, pawn_attacks_bb, pop_lsb,
    rook_attacks, sq_bb, test_bit,
};
use crate::bits::{group_has, holds, lemma_empty, lemma_ext, lemma_lowest, lemma_nonzero, lowest};
use crate::geometry::{lemma_pawn_hit_mutual, on_board, pawn_hit};
use crate::keys::{
    ep_key, group_key, in_group, lemma_group_update, lemma_marks_toggle, lemma_material_update,
    lemma_pocket_change, lemma_pocket_same, lemma_residue, piece_keys_match, residue, side_key,
    variant_key, Group,
};
use crate::position::Position;
use crate::rules::{
    board_wf, castling_right, count, is_king_square, king, king_sq, lemma_count_bound,
    lemma_count_room, lemma_count_update, lemma_occ, occ, one_king, owned, pawn, reversible_plies,
    repetition_from, right_color, right_king_to, right_rook_to, rook, single_right, Board, PosView,
};
use crate::state::StateInfo;
use crate::types::{
    file_of, relative_square, Color, Move, Piece, PieceType, Square, PIECE_TYPE_NB, SQ_NONE,
};
use crate::variant::Variant;
use crate::zobrist::{key_hand, key_no_pawns, key_promoted, key_psq, key_side, psq_key};

verus! {

broadcast use {group_has, lemma_occ};

impl Position {
    // Board mutation

    /// Puts a piece on an empty square.
    pub(crate) fn put_piece(&mut self, pc: Piece, sq: Square)
        requires
            old(self).board_ok(),
            pc.0 < 12,
            sq < 64,
            old(self)@.board[sq as int].0 == 12,
        ensures
            final(self).board_ok(),
            final(self)@ == (PosView {
                board: old(self)@.board.update(sq as int, pc),
                ..old(self)@
            }),
            final(self).keys == old(self).keys,
    {
        let ghost b = self.board@;
        proof {
            lemma_count_room(b, pc.0 as int, sq as int);
            assert forall|p: int| 0 <= p < 12 implies #[trigger] count(
                b.update(sq as int, pc),
                p,
            ) == count(b, p) + (if pc.0 == p {
                1int
            } else {
                0
            }) by {
                lemma_count_update(b, sq as int, pc, p);
            }
        }
        self.board[sq as usize] = pc;
        let t: usize = pc.piece_type().idx();
        let c: usize = pc.color().idx();
        let bit = sq_bb(sq);
        let ghost types = self.by_type@;
        let ghost colors = self.by_color@;
        self.by_type[t] = self.by_type[t] | bit;
        self.by_color[c] = self.by_color[c] | bit;
        self.piece_count[pc.idx()] = self.piece_count[pc.idx()] + 1;
        proof {
            assert forall|i: int, s: int| 0 <= i < 6 implies (#[trigger] holds(
                self.by_type@[i],
                s,
            ) <==> on_board(s) && self.board@[s].0 < 12 && self.board@[s].0 % 6 == i) by {
                assert(holds(types[i], s) <==> on_board(s) && b[s].0 < 12 && b[s].0 % 6 == i);
            }
            assert forall|i: int, s: int| 0 <= i < 2 implies (#[trigger] holds(
                self.by_color@[i],
                s,
            ) <==> on_board(s) && self.board@[s].0 < 12 && self.board@[s].0 / 6 == i) by {
                assert(holds(colors[i], s) <==> on_board(s) && b[s].0 < 12 && b[s].0 / 6 == i);
            }
        }
    }

    /// Takes the piece off a square.
    pub(crate) fn remove_piece(&mut self, sq: Square)
        requires
            old(self).board_ok(),
            sq < 64,
            old(self)@.board[sq as int].0 < 12,
        ensures
            final(self).board_ok(),
            final(self)@ == (PosView {
                board: old(self)@.board.update(sq as int, Piece(12)),
                ..old(self)@
            }),
            final(self).keys == old(self).keys,
    {
        let ghost b = self.board@;
        let pc = self.board[sq as usize];
        proof {
            lemma_count_bound(b, pc.0 as int, sq as int);
            assert forall|p: int| 0 <= p < 12 implies #[trigger] count(
                b.update(sq as int, Piece(12)),
                p,
            ) == count(b, p) - (if pc.0 == p {
                1int
            } else {
                0
            }) by {
                lemma_count_update(b, sq as int, Piece(12), p);
            }
        }
        let t: usize = pc.piece_type().idx();
        let c: usize = pc.color().idx();
        let bit = sq_bb(sq);
        let ghost types = self.by_type@;
        let ghost colors = self.by_color@;
        proof {
            assert(holds(types[t as int], sq as int));
            assert(holds(colors[c as int], sq as int));
        }
        self.by_type[t] = self.by_type[t] ^ bit;
        self.by_color[c] = self.by_color[c] ^ bit;
        self.board[sq as usize] = Piece(12);
        self.piece_count[pc.idx()] = self.piece_count[pc.idx()] - 1;
        proof {
            assert forall|i: int, s: int| 0 <= i < 6 implies (#[trigger] holds(
                self.by_type@[i],
                s,
            ) <==> on_board(s) && self.board@[s].0 < 12 && self.board@[s].0 % 6 == i) by {
                assert(holds(types[i], s) <==> on_board(s) && b[s].0 < 12 && b[s].0 % 6 == i);
            }
            assert forall|i: int, s: int| 0 <= i < 2 implies (#[trigger] holds(
                self.by_color@[i],
                s,
            ) <==> on_board(s) && self.board@[s].0 < 12 && self.board@[s].0 / 6 == i) by {
                assert(holds(colors[i], s) <==> on_board(s) && b[s].0 < 12 && b[s].0 / 6 == i);
            }
        }
    }

    /// Moves the piece on `from` to the empty square `to`.
    pub(crate) fn move_piece(&mut self, from: Square, to: Square)
        requires
            old(self).board_ok(),
            from < 64,
            to < 64,
            old(self)@.board[from as int].0 < 12,
            from == to || old(self)@.board[to as int].0 == 12,
        ensures
            final(self).board_ok(),
            final(self)@ == (PosView {
                board: old(self)@.board.update(from as int, Piece(12)).update(
                    to as int,
                    old(self)@.board[from as int],
                ),
                ..old(self)@
            }),
            final(self).keys == old(self).keys,
    {
        let pc = self.board[from as usize];
        self.remove_piece(from);
        self.put_piece(pc, to);
    }

    /// Takes a piece off the board and out of every key of `st`. A captured king stays in
    /// the minor-piece key unless `minors` is set.
    fn lift(&mut self, st: &mut StateInfo, sq: Square, minors: bool)
        requires
            old(self).board_ok(),
            old(self).keys.wf(),
            sq < 64,
            old(self)@.board[sq as int].0 < 12,
        ensures
            final(self).board_ok(),
            final(self).keys == old(self).keys,
            final(self)@ == (PosView {
                board: old(self)@.board.update(sq as int, Piece(12)),
                ..old(self)@
            }),
            *final(st) == (StateInfo {
                key: final(st).key,
                pawn_key: final(st).pawn_key,
                nonpawn_key: final(st).nonpawn_key,
                minor_key: final(st).minor_key,
                material_key: final(st).material_key,
                ..*old(st)
            }),
            residue(final(self)@.board, *final(st)) == residue(old(self)@.board, *old(st)),
            forall|strict: bool| #[trigger]
                piece_keys_match(old(self)@.board, *old(st), strict) ==> piece_keys_match(
                    final(self)@.board,
                    *final(st),
                    strict && (minors || old(self)@.board[sq as int].piece_type()
                        != PieceType::King),
                ),
    {
        let ghost b0 = self@.board;
        let ghost st0 = *st;
        let pc = self.board[sq as usize];
        self.remove_piece(sq);
        let k = psq_key(&self.keys, pc, sq);
        st.key = st.key ^ k;
        if pc.piece_type() == PieceType::Pawn {
            st.pawn_key = st.pawn_key ^ k;
        } else {
            let c: usize = pc.color().idx();
            st.nonpawn_key[c] = st.nonpawn_key[c] ^ k;
            if pc.piece_type() == PieceType::Knight || pc.piece_type() == PieceType::Bishop || (
            pc.piece_type() == PieceType::King && minors) {
                st.minor_key = st.minor_key ^ k;
            }
        }
        proof {
            lemma_count_bound(b0, pc.0 as int, sq as int);
            lemma_count_update(b0, sq as int, Piece(12), pc.0 as int);
        }
        let left: usize = self.piece_count[pc.idx()] as usize;
        proof {
            lemma_count_bound(b0, pc.0 as int, 0);
        }
        st.material_key = st.material_key ^ self.keys.psq[pc.idx()][left];
        proof {
            lemma_keys_one_square(b0, st0, self@.board, *st, sq as int, Piece(12), minors);
        }
    }

    /// Puts a piece on an empty square and into every key of `st`.
    fn place(&mut self, st: &mut StateInfo, pc: Piece, sq: Square)
        requires
            old(self).board_ok(),
            old(self).keys.wf(),
            pc.0 < 12,
            sq < 64,
            old(self)@.board[sq as int].0 == 12,
        ensures
            final(self).board_ok(),
            final(self).keys == old(self).keys,
            final(self)@ == (PosView {
                board: old(self)@.board.update(sq as int, pc),
                ..old(self)@
            }),
            *final(st) == (StateInfo {
                key: final(st).key,
                pawn_key: final(st).pawn_key,
                nonpawn_key: final(st).nonpawn_key,
                minor_key: final(st).minor_key,
                material_key: final(st).material_key,
                ..*old(st)
            }),
            residue(final(self)@.board, *final(st)) == residue(old(self)@.board, *old(st)),
            forall|strict: bool| #[trigger]
                piece_keys_match(old(self)@.board, *old(st), strict) ==> piece_keys_match(
                    final(self)@.board,
                    *final(st),
                    strict,
                ),
    {
        let ghost b0 = self@.board;
        let ghost st0 = *st;
        proof {
            lemma_count_room(b0, pc.0 as int, sq as int);
        }
        let had: usize = self.piece_count[pc.idx()] as usize;
        self.put_piece(pc, sq);
        let k = psq_key(&self.keys, pc, sq);
        st.key = st.key ^ k;
        if pc.piece_type() == PieceType::Pawn {
            st.pawn_key = st.pawn_key ^ k;
        } else {
            let c: usize = pc.color().idx();
            st.nonpawn_key[c] = st.nonpawn_key[c] ^ k;
            if pc.piece_type() == PieceType::Knight || pc.piece_type() == PieceType::Bishop
                || pc.piece_type() == PieceType::King {
                st.minor_key = st.minor_key ^ k;
            }
        }
        st.material_key = st.material_key ^ self.keys.psq[pc.idx()][had];
        proof {
            lemma_keys_one_square(b0, st0, self@.board, *st, sq as int, pc, true);
        }
    }
}

/// Toggling a piece's words in every key follows the board when the piece comes or goes.
proof fn lemma_keys_one_square(
    b: Board,
    st: StateInfo,
    b1: Board,
    st1: StateInfo,
    s: int,
    q: Piece,
    minors: bool,
)
    requires
        board_wf(b),
        0 <= s < 64,
        q.0 <= 12,
        b[s].0 == 12 <==> q.0 < 12,
        b1 == b.update(s, q),
        ({
            let pc = if q.0 < 12 {
                q
            } else {
                b[s]
            };
            let k = key_psq(pc.0 as int, s);
            let pt = pc.piece_type();
            &&& st1 == (StateInfo {
                key: st1.key,
                pawn_key: st1.pawn_key,
                nonpawn_key: st1.nonpawn_key,
                minor_key: st1.minor_key,
                material_key: st1.material_key,
                ..st
            })
            &&& st1.key == st.key ^ k
            &&& st1.pawn_key == if pt == PieceType::Pawn {
                st.pawn_key ^ k
            } else {
                st.pawn_key
            }
            &&& st1.nonpawn_key@ == if pt == PieceType::Pawn {
                st.nonpawn_key@
            } else {
                st.nonpawn_key@.update(
                    pc.color().idx() as int,
                    st.nonpawn_key@[pc.color().idx() as int] ^ k,
                )
            }
            &&& st1.minor_key == if pt == PieceType::Knight || pt == PieceType::Bishop || (pt
                == PieceType::King && minors) {
                st.minor_key ^ k
            } else {
                st.minor_key
            }
            &&& st1.material_key == st.material_key ^ key_psq(
                pc.0 as int,
                if q.0 < 12 {
                    count(b, pc.0 as int) as int
                } else {
                    count(b, pc.0 as int) - 1
                },
            )
        }),
    ensures
        residue(b1, st1) == residue(b, st),
        forall|strict: bool| #[trigger]
            piece_keys_match(b, st, strict) ==> piece_keys_match(
                b1,
                st1,
                strict && (minors || (b[s].0 < 12 && b[s].piece_type() != PieceType::King)),
            ),
{
    let pc = if q.0 < 12 {
        q
    } else {
        b[s]
    };
    let k = key_psq(pc.0 as int, s);
    let groups = (
        Group::All,
        Group::Pawns,
        Group::Pieces(Color::White),
        Group::Pieces(Color::Black),
        Group::Minors,
    );
    lemma_group_toggle(b, groups.0, s, q);
    lemma_group_toggle(b, groups.1, s, q);
    lemma_group_toggle(b, groups.2, s, q);
    lemma_group_toggle(b, groups.3, s, q);
    lemma_group_toggle(b, groups.4, s, q);
    lemma_material_update(b, s, q);
    assert(residue(b1, st1) == residue(b, st)) by {
        reveal(residue);
        assert(variant_key(st1) == variant_key(st)) by {
            lemma_pocket_same(st, st1, 0, 5);
            lemma_pocket_same(st, st1, 1, 5);
        }
        lemma_ext(residue(b1, st1), residue(b, st));
    }
    assert forall|strict: bool| #[trigger] piece_keys_match(b, st, strict) implies piece_keys_match(
        b1,
        st1,
        strict && (minors || (b[s].0 < 12 && b[s].piece_type() != PieceType::King)),
    ) by {
        lemma_xor_assoc(key_no_pawns(), group_key(b, Group::Pawns), k);
    }
}

proof fn lemma_xor_assoc(a: u64, b: u64, c: u64)
    ensures
        (a ^ b) ^ c == a ^ (b ^ c),
{
    lemma_ext((a ^ b) ^ c, a ^ (b ^ c));
}

/// A piece coming or going toggles its word in the keys of its groups.
proof fn lemma_group_toggle(b: Board, g: Group, s: int, q: Piece)
    requires
        b.len() == 64,
        0 <= s < 64,
        b[s].0 <= 12,
        q.0 <= 12,
        b[s].0 == 12 <==> q.0 < 12,
    ensures
        ({
            let pc = if q.0 < 12 {
                q
            } else {
                b[s]
            };
            group_key(b.update(s, q), g) == if in_group(g, pc) {
                group_key(b, g) ^ key_psq(pc.0 as int, s)
            } else {
                group_key(b, g)
            }
        }),
{
    let pc = if q.0 < 12 {
        q
    } else {
        b[s]
    };
    lemma_group_update(b, g, s, q);
    let after = group_key(b.update(s, q), g);
    if in_group(g, pc) {
        lemma_ext(after, group_key(b, g) ^ key_psq(pc.0 as int, s));
    } else {
        lemma_ext(after, group_key(b, g));
    }
}

proof fn bv_rights(a: u8, m: u8, cr: u8)
    by (bit_vector)
    requires
        cr == 1 || cr == 2 || cr == 4 || cr == 8,
        a < 16,
    ensures
        a & !m < 16,
        (a & !m) & cr != 0 <==> a & cr != 0 && m & cr == 0,
        a & cr != 0 ==> a != 0,
        a & !m != 0 ==> a != 0,
        a | cr < 16,
        m & cr != 0 ==> (m | a) & cr != 0 && (a | m) & cr != 0,
{
}

// State changes outside the board. Each keeps the key in step with the state.

/// Crazyhouse: a captured piece joins the capturer's pocket, as a pawn if it had itself
/// been promoted.
fn pocket_captured(
    keys: &crate::zobrist::ZobristKeys,
    st: &mut StateInfo,
    us: Color,
    captured: Piece,
    capsq: Square,
)
    requires
        keys.wf(),
        capsq < 64,
        captured.0 < 12,
        captured.piece_type() != PieceType::King,
        forall|p: int|
            0 <= p < 5 ==> #[trigger] old(st).hand@[us.idx() as int]@[p] <= 16,
        old(st).hand@[us.idx() as int]@[(if holds(old(st).promoted, capsq as int) {
            PieceType::Pawn
        } else {
            captured.piece_type()
        }).idx() as int] < 16,
    ensures
        *final(st) == (StateInfo {
            key: final(st).key,
            hand: final(st).hand,
            promoted: final(st).promoted,
            ..*old(st)
        }),
        forall|x: int| #[trigger]
            holds(final(st).promoted, x) <==> holds(old(st).promoted, x) && x != capsq,
        forall|c: int, p: int|
            0 <= c < 2 && 0 <= p < 5 ==> #[trigger] final(st).hand@[c]@[p] == old(
                st,
            ).hand@[c]@[p] + (if c == us.idx() && p == (if holds(
                old(st).promoted,
                capsq as int,
            ) {
                PieceType::Pawn
            } else {
                captured.piece_type()
            }).idx() {
                1int
            } else {
                0
            }),
        forall|b: Board| #[trigger] residue(b, *old(st)) == residue(b, *final(st)),
{
    let ghost st0 = *st;
    let marked = test_bit(st.promoted, capsq);
    if marked {
        st.promoted = st.promoted ^ sq_bb(capsq);
        st.key = st.key ^ keys.promoted[capsq as usize];
    }
    let ghost st1 = *st;
    proof {
        if marked {
            lemma_residue_marks(st0, st1, capsq as int);
        }
    }
    let pt = if marked {
        PieceType::Pawn
    } else {
        captured.piece_type()
    };
    let c: usize = us.idx();
    let p: usize = pt.idx();
    let n: u8 = st.hand[c][p];
    st.key = st.key ^ keys.hand[c][p][n as usize] ^ keys.hand[c][p][n as usize + 1];
    let mut row = st.hand[c];
    row[p] = n + 1;
    st.hand[c] = row;
    proof {
        lemma_residue_hand(st1, *st, c as int, p as int);
    }
}

/// Crazyhouse: the promoted-piece mark travels with the piece.
fn carry_mark(keys: &crate::zobrist::ZobristKeys, st: &mut StateInfo, from: Square, to: Square)
    requires
        keys.wf(),
        from < 64,
        to < 64,
        from != to,
    ensures
        *final(st) == (StateInfo {
            key: final(st).key,
            promoted: final(st).promoted,
            ..*old(st)
        }),
        forall|x: int| #[trigger]
            holds(final(st).promoted, x) <==> (if holds(old(st).promoted, from as int) {
                holds(old(st).promoted, x) != (x == from || x == to)
            } else {
                holds(old(st).promoted, x)
            }),
        forall|b: Board| #[trigger] residue(b, *old(st)) == residue(b, *final(st)),
{
    if test_bit(st.promoted, from) {
        let ghost st0 = *st;
        st.promoted = st.promoted ^ sq_bb(from);
        st.key = st.key ^ keys.promoted[from as usize];
        let ghost st1 = *st;
        proof {
            lemma_residue_marks(st0, st1, from as int);
        }
        st.promoted = st.promoted ^ sq_bb(to);
        st.key = st.key ^ keys.promoted[to as usize];
        proof {
            lemma_residue_marks(st1, *st, to as int);
        }
    }
}

/// Crazyhouse: a piece that arrives by promotion is marked.
fn mark_promoted(keys: &crate::zobrist::ZobristKeys, st: &mut StateInfo, to: Square)
    requires
        keys.wf(),
        to < 64,
    ensures
        *final(st) == (StateInfo {
            key: final(st).key,
            promoted: final(st).promoted,
            ..*old(st)
        }),
        forall|x: int| #[trigger]
            holds(final(st).promoted, x) <==> holds(old(st).promoted, x) || x == to,
        !holds(old(st).promoted, to as int) ==> forall|b: Board| #[trigger]
            residue(b, *old(st)) == residue(b, *final(st)),
{
    let ghost st0 = *st;
    st.promoted = st.promoted | sq_bb(to);
    st.key = st.key ^ keys.promoted[to as usize];
    proof {
        if !holds(st0.promoted, to as int) {
            lemma_residue_marks(st0, *st, to as int);
        }
    }
}

/// Three-check: a check given is counted, up to three.
fn count_check(keys: &crate::zobrist::ZobristKeys, st: &mut StateInfo, us: Color)
    requires
        keys.wf(),
        old(st).checks_given@[0] <= 3,
        old(st).checks_given@[1] <= 3,
    ensures
        *final(st) == (StateInfo {
            key: final(st).key,
            checks_given: final(st).checks_given,
            ..*old(st)
        }),
        forall|c: int|
            0 <= c < 2 ==> #[trigger] final(st).checks_given@[c] == old(st).checks_given@[c] + (
            if c == us.idx() && old(st).checks_given@[c] < 3 {
                1int
            } else {
                0
            }),
        forall|b: Board| #[trigger] residue(b, *old(st)) == residue(b, *final(st)),
{
    let c: usize = us.idx();
    let n: u8 = st.checks_given[c];
    if n < 3 {
        let ghost st0 = *st;
        st.key = st.key ^ keys.checks[c][n as usize] ^ keys.checks[c][n as usize + 1];
        st.checks_given[c] = n + 1;
        proof {
            let st1 = *st;
            reveal(residue);
            lemma_pocket_same(st0, st1, 0, 5);
            lemma_pocket_same(st0, st1, 1, 5);
            assert forall|b: Board| #[trigger] residue(b, st0) == residue(b, st1) by {
                lemma_ext(residue(b, st0), residue(b, st1));
            }
        }
    }
}

/// The en passant square is given up.
fn clear_en_passant(keys: &crate::zobrist::ZobristKeys, st: &mut StateInfo)
    requires
        keys.wf(),
        old(st).ep_square <= 64,
    ensures
        *final(st) == (StateInfo { key: final(st).key, ep_square: SQ_NONE, ..*old(st) }),
        forall|b: Board| #[trigger] residue(b, *old(st)) == residue(b, *final(st)),
{
    if st.ep_square != SQ_NONE {
        let ghost st0 = *st;
        st.key = st.key ^ keys.en_passant[file_of(st.ep_square) as usize];
        st.ep_square = SQ_NONE;
        proof {
            lemma_residue_ep(st0, *st);
        }
    }
}

/// An en passant square is set where there was none.
fn set_en_passant(keys: &crate::zobrist::ZobristKeys, st: &mut StateInfo, sq: Square)
    requires
        keys.wf(),
        sq < 64,
        old(st).ep_square == SQ_NONE,
    ensures
        *final(st) == (StateInfo { key: final(st).key, ep_square: sq, ..*old(st) }),
        forall|b: Board| #[trigger] residue(b, *old(st)) == residue(b, *final(st)),
{
    let ghost st0 = *st;
    st.ep_square = sq;
    st.key = st.key ^ keys.en_passant[file_of(sq) as usize];
    proof {
        lemma_residue_ep(st0, *st);
    }
}

/// Castling rights tied to the squares of a move are lost.
fn drop_rights(keys: &crate::zobrist::ZobristKeys, st: &mut StateInfo, lost: u8)
    requires
        keys.wf(),
        old(st).castling_rights < 16,
    ensures
        *final(st) == (StateInfo {
            key: final(st).key,
            castling_rights: old(st).castling_rights & !lost,
            ..*old(st)
        }),
        final(st).castling_rights < 16,
        forall|b: Board| #[trigger] residue(b, *old(st)) == residue(b, *final(st)),
{
    let ghost st0 = *st;
    let before: u8 = st.castling_rights;
    proof {
        bv_rights(before, lost, 1);
    }
    let after: u8 = before & !lost;
    st.key = st.key ^ keys.castling[before as usize] ^ keys.castling[after as usize];
    st.castling_rights = after;
    proof {
        let st1 = *st;
        reveal(residue);
        lemma_pocket_same(st0, st1, 0, 5);
        lemma_pocket_same(st0, st1, 1, 5);
        assert forall|b: Board| #[trigger] residue(b, st0) == residue(b, st1) by {
            lemma_ext(residue(b, st0), residue(b, st1));
        }
    }
}

proof fn lemma_residue_marks(a: StateInfo, b: StateInfo, s: int)
    requires
        0 <= s < 64,
        b == (StateInfo { key: b.key, promoted: b.promoted, ..a }),
        b.key == a.key ^ key_promoted(s),
        forall|x: int| #[trigger] holds(b.promoted, x) <==> on_board(x) && holds(a.promoted, x) != (x
            == s),
    ensures
        forall|d: Board| #[trigger] residue(d, a) == residue(d, b),
{
    reveal(residue);
    lemma_pocket_same(a, b, 0, 5);
    lemma_pocket_same(a, b, 1, 5);
    lemma_marks_toggle(a.promoted, b.promoted, s, 64);
    assert forall|d: Board| #[trigger] residue(d, a) == residue(d, b) by {
        lemma_ext(residue(d, a), residue(d, b));
    }
}

proof fn lemma_residue_hand(a: StateInfo, b: StateInfo, c: int, p: int)
    requires
        0 <= c < 2,
        0 <= p < 5,
        b == (StateInfo { key: b.key, hand: b.hand, ..a }),
        b.key == (a.key ^ key_hand(c, p, a.hand@[c]@[p] as int)) ^ key_hand(
            c,
            p,
            b.hand@[c]@[p] as int,
        ),
        forall|d: int, q: int|
            0 <= d < 2 && 0 <= q < 5 && !(d == c && q == p) ==> #[trigger] a.hand@[d]@[q]
                == b.hand@[d]@[q],
    ensures
        forall|d: Board| #[trigger] residue(d, a) == residue(d, b),
{
    reveal(residue);
    lemma_pocket_change(a, b, c, p, 5);
    lemma_pocket_same(a, b, 1 - c, 5);
    assert forall|d: Board| #[trigger] residue(d, a) == residue(d, b) by {
        lemma_ext(residue(d, a), residue(d, b));
    }
}

proof fn lemma_residue_ep(a: StateInfo, b: StateInfo)
    requires
        b == (StateInfo { key: b.key, ep_square: b.ep_square, ..a }),
        b.key == (a.key ^ ep_key(a)) ^ ep_key(b) || b.key == a.key ^ ep_key(b) && ep_key(a) == 0
            || b.key == a.key ^ ep_key(a) && ep_key(b) == 0,
    ensures
        forall|d: Board| #[trigger] residue(d, a) == residue(d, b),
{
    reveal(residue);
    lemma_pocket_same(a, b, 0, 5);
    lemma_pocket_same(a, b, 1, 5);
    assert forall|d: Board| #[trigger] residue(d, a) == residue(d, b) by {
        lemma_ext(residue(d, a), residue(d, b));
    }
}

impl Position {
    /// Antichess only: does the side to move have any capture (including en passant)?
    pub(crate) fn compute_must_capture(&self) -> (r: bool)
        requires
            self.board_ok(),
            self.states@.len() >= 1,
            self@.st().ep_square <= 64,
        ensures
            r == self@.can_capture(),
    {
        let ghost v = self@;
        let us = self.side_to_move;
        let them = us.flip();
        let enemy = self.pieces_c(them);
        let occupied = self.pieces();
        let ep = self.ep_square();
        let targets: u64 = if ep != SQ_NONE {
            enemy | sq_bb(ep)
        } else {
            enemy
        };
        let pawns = self.pieces_cp(us, PieceType::Pawn);
        let taken = pawn_attacks_bb(us, pawns) & targets;
        if taken != 0 {
            proof {
                lemma_lowest(taken);
                let t = lowest(taken);
                let x = choose|x: int| #[trigger] holds(pawns, x) && pawn_hit(us, x, t);
                assert(v.captures(x, t));
            }
            return true;
        }
        proof {
            assert forall|x: int, t: int| #[trigger] v.captures(x, t) implies v.board[x].piece_type()
                != PieceType::Pawn by {
                if v.board[x].piece_type() == PieceType::Pawn {
                    assert(holds(pawns, x) && pawn_hit(us, x, t));
                    lemma_nonzero(taken, t);
                }
            }
        }
        let kinds: [PieceType; 5] = [
            PieceType::Knight,
            PieceType::Bishop,
            PieceType::Rook,
            PieceType::Queen,
            PieceType::King,
        ];
        let mut i: usize = 0;
        while i < 5
            invariant
                i <= 5,
                self.board_ok(),
                v == self@,
                us == v.stm,
                them == us.flip(),
                occupied == occ(v.board),
                forall|s: int| #[trigger]
                    holds(enemy, s) <==> on_board(s) && owned(v.board[s], them),
                kinds@ == seq![
                    PieceType::Knight,
                    PieceType::Bishop,
                    PieceType::Rook,
                    PieceType::Queen,
                    PieceType::King,
                ],
                forall|x: int, t: int| #[trigger]
                    v.captures(x, t) ==> v.board[x].piece_type() != PieceType::Pawn,
                forall|x: int, t: int, j: int|
                    0 <= j < i && #[trigger] v.captures(x, t) ==> v.board[x].piece_type()
                        != #[trigger] kinds@[j],
            decreases 5 - i,
        {
            let pt = kinds[i];
            let mut b = self.pieces_cp(us, pt);
            let ghost all = b;
            while b != 0
                invariant
                    i < 5,
                    self.board_ok(),
                    v == self@,
                    us == v.stm,
                    them == us.flip(),
                    occupied == occ(v.board),
                    pt == kinds@[i as int],
                    pt != PieceType::Pawn,
                    forall|s: int| #[trigger]
                        holds(enemy, s) <==> on_board(s) && owned(v.board[s], them),
                    forall|s: int| #[trigger]
                        holds(all, s) <==> on_board(s) && v.board[s] == Piece::make(us, pt),
                    forall|s: int| #[trigger] holds(b, s) ==> holds(all, s),
                    forall|x: int, t: int| #[trigger]
                        v.captures(x, t) && holds(all, x) ==> holds(b, x),
                decreases b,
            {
                let s = pop_lsb(&mut b);
                let taken = attacks_bb(pt, s, occupied) & enemy;
                if taken != 0 {
                    proof {
                        lemma_lowest(taken);
                        assert(holds(all, s as int));
                        assert(v.captures(s as int, lowest(taken)));
                    }
                    return true;
                }
                proof {
                    assert forall|x: int, t: int| #[trigger]
                        v.captures(x, t) && holds(all, x) implies holds(b, x) by {
                        if x == s {
                            assert(holds(all, x));
                            lemma_nonzero(taken, t);
                        }
                    }
                }
            }
            proof {
                assert forall|x: int, t: int, j: int|
                    0 <= j < i + 1 && #[trigger] v.captures(x, t) implies v.board[x].piece_type()
                    != #[trigger] kinds@[j] by {
                    if j == i && v.board[x].piece_type() == pt {
                        assert(holds(all, x));
                    }
                }
            }
            i += 1;
        }
        proof {
            assert forall|x: int, t: int| !#[trigger] v.captures(x, t) by {
                if v.captures(x, t) {
                    let pt = v.board[x].piece_type();
                    assert(pt != kinds@[0] && pt != kinds@[1] && pt != kinds@[2] && pt != kinds@[3]
                        && pt != kinds@[4]);
                }
            }
        }
        false
    }

    /// Pins, pinners, checking squares and the duty to capture, worked out from the board.
    pub(crate) fn set_check_info(&mut self)
        requires
            old(self).ready(),
            old(self)@.st().ep_square <= 64,
            !old(self)@.st().must_capture,
        ensures
            final(self).ready(),
            final(self).keys == old(self).keys,
            final(self)@ == (PosView {
                states: old(self)@.states.drop_last().push(final(self)@.st()),
                ..old(self)@
            }),
            final(self)@.st() == (StateInfo {
                blockers_for_king: final(self)@.st().blockers_for_king,
                pinners: final(self)@.st().pinners,
                check_squares: final(self)@.st().check_squares,
                must_capture: final(self)@.st().must_capture,
                ..old(self)@.st()
            }),
            final(self)@.info_ok(),
    {
        let ghost v = self@;
        let n: usize = self.states.len() - 1;
        let mut st = self.states[n];
        if !self.variant.royal_king() {
            let must = self.compute_must_capture();
            st.blockers_for_king = [0;2];
            st.pinners = [0;2];
            st.check_squares = [0;PIECE_TYPE_NB];
            st.must_capture = must;
            self.states[n] = st;
            proof {
                let w = self@;
                assert(w.states =~= v.states.drop_last().push(st));
                assert(w.can_capture() == v.can_capture()) by {
                    if v.can_capture() {
                        let (x, t) = choose|x: int, t: int| #[trigger] v.captures(x, t);
                        assert(w.captures(x, t));
                    }
                    if w.can_capture() {
                        let (x, t) = choose|x: int, t: int| #[trigger] w.captures(x, t);
                        assert(v.captures(x, t));
                    }
                }
            }
            return ;
        }
        proof {
            let kw = king_sq(v.board, Color::White);
            let kb = king_sq(v.board, Color::Black);
            assert(v.board[kw] == king(Color::White));
            assert(v.board[kb] == king(Color::Black));
        }
        let wk = self.king_square(Color::White);
        let bk = self.king_square(Color::Black);
        let (wb, bp) = self.slider_blockers(Color::Black, wk);
        let (bb, wp) = self.slider_blockers(Color::White, bk);
        let them = self.side_to_move.flip();
        let ksq: Square = match them {
            Color::White => wk,
            Color::Black => bk,
        };
        let occupied = self.pieces();
        let bishop = bishop_attacks(ksq, occupied);
        let rook = rook_attacks(ksq, occupied);
        st.blockers_for_king = [wb, bb];
        st.pinners = [wp, bp];
        st.check_squares = [
            pawn_attacks(them, ksq),
            knight_attacks(ksq),
            bishop,
            rook,
            bishop | rook,
            0,
        ];
        self.states[n] = st;
        proof {
            assert(self@.states =~= v.states.drop_last().push(st));
        }
    }

    /// Repetition bookkeeping, push, and derived check info shared by all move kinds.
    fn finish_make(&mut self, st: StateInfo)
        requires
            old(self).ready(),
            st.ep_square <= 64,
            !st.must_capture,
            0 <= st.plies_from_null <= old(self)@.states.len(),
        ensures
            final(self).ready(),
            final(self).keys == old(self).keys,
            final(self)@ == (PosView {
                states: old(self)@.states.push(final(self)@.st()),
                ..old(self)@
            }),
            final(self)@.st() == (StateInfo {
                blockers_for_king: final(self)@.st().blockers_for_king,
                pinners: final(self)@.st().pinners,
                check_squares: final(self)@.st().check_squares,
                must_capture: final(self)@.st().must_capture,
                repetition: final(self)@.st().repetition,
                ..st
            }),
            final(self)@.st().repetition == repetition_from(
                old(self)@.states,
                st.key,
                4,
                reversible_plies(st),
            ),
            final(self)@.info_ok(),
    {
        let ghost v = self@;
        let mut st = st;
        let end: i32 = if st.rule50 <= st.plies_from_null {
            st.rule50
        } else {
            st.plies_from_null
        };
        let n: usize = self.states.len();
        let mut found: i32 = 0;
        let mut i: i32 = 4;
        while i <= end
            invariant_except_break
                found == 0,
                repetition_from(v.states, st.key, i as int, end as int) == repetition_from(
                    v.states,
                    st.key,
                    4,
                    end as int,
                ),
            invariant
                4 <= i,
                end <= n,
                n == self.states@.len(),
                self@ == v,
                v.states == self.states@,
            ensures
                found == repetition_from(v.states, st.key, 4, end as int),
            decreases end - i,
        {
            let prior = &self.states[n - i as usize];
            if prior.key == st.key {
                found = if prior.repetition != 0 {
                    -i
                } else {
                    i
                };
                break;
            }
            if i > end - 2 {
                assert(repetition_from(v.states, st.key, i + 2, end as int) == 0);
                break;
            }
            i = i + 2;
        }
        st.repetition = found;
        self.states.push(st);
        proof {
            assert(self@.st() == st);
        }
        self.set_check_info();
        proof {
            assert(self@.states =~= v.states.push(self@.st()));
        }
    }
}

// What making a move keeps

/// King and rook of a castling move stand where the move says, and their destinations are
/// free of other pieces.
pub proof fn lemma_castling_squares(v: PosView, m: Move)
    requires
        v.wf(),
        v.real_castling(m),
        v.castling_free(m),
    ensures
        m.from() != m.to(),
        v.board[m.from()] == king(v.stm),
        v.board[m.to()] == rook(v.stm),
        on_board(v.castle_king_to(m)),
        on_board(v.castle_rook_to(m)),
        v.castle_king_to(m) != v.castle_rook_to(m),
        v.board[v.castle_king_to(m)].0 == 12 || v.castle_king_to(m) == m.from()
            || v.castle_king_to(m) == m.to(),
        v.board[v.castle_rook_to(m)].0 == 12 || v.castle_rook_to(m) == m.from()
            || v.castle_rook_to(m) == m.to(),
{
    let cr = castling_right(v.stm, m.to() > m.from());
    assert(v.right_ok(cr));
    assert(one_king(v.board, v.stm));
    assert(right_king_to(cr) == v.castle_king_to(m));
    assert(right_rook_to(cr) == v.castle_rook_to(m));
    let p = v.path[cr as int];
    assert(holds(p, v.castle_king_to(m)) || v.castle_king_to(m) == m.from() || v.castle_king_to(m)
        == m.to());
    assert(holds(p, v.castle_rook_to(m)) || v.castle_rook_to(m) == m.from() || v.castle_rook_to(m)
        == m.to());
}

/// A board stays well-formed and a royal game keeps its kings.
pub proof fn lemma_after_shape(v: PosView, m: Move)
    requires
        v.wf(),
        v.can_make(m),
    ensures
        board_wf(v.after(m)),
        v.variant.royal_king() ==> one_king(v.after(m), Color::White) && one_king(
            v.after(m),
            Color::Black,
        ),
        v.variant.royal_king() ==> king_sq(v.after(m), v.stm.flip()) == v.ksq(v.stm.flip()),
        v.variant.royal_king() ==> king_sq(v.after(m), v.stm) == (if !m.is_drop() && m.from()
            == v.ksq(v.stm) {
            v.arrival(m)
        } else {
            v.ksq(v.stm)
        }),
{
    let b = v.board;
    let a = v.after(m);
    let us = v.stm;
    let them = us.flip();
    if v.real_castling(m) {
        lemma_castling_squares(v, m);
    }
    if v.variant.royal_king() {
        let k = v.ksq(us);
        let j = v.ksq(them);
        assert(is_king_square(b, us, k) && is_king_square(b, them, j)) by {
            assert(one_king(b, Color::White) && one_king(b, Color::Black));
        }
        let k1 = if !m.is_drop() && m.from() == k {
            v.arrival(m)
        } else {
            k
        };
        assert(is_king_square(a, them, j));
        assert(is_king_square(a, us, k1));
        assert(king_sq(a, them) == j);
        assert(king_sq(a, us) == k1);
    }
}

/// The castling rights left after a move are still backed by a king and a rook.
proof fn lemma_after_castling(v: PosView, m: Move, w: PosView)
    requires
        v.wf(),
        v.can_make(m),
        w.board == v.after(m),
        w.variant == v.variant,
        w.mask == v.mask,
        w.rooks == v.rooks,
        w.path == v.path,
        w.st().castling_rights == (if m.is_drop() {
            v.st().castling_rights
        } else {
            v.st().castling_rights & !(v.mask[m.from()] | v.mask[v.arrival(m)])
        }),
    ensures
        w.castling_ok(),
        forall|cr: u8|
            single_right(cr) && #[trigger] w.has_right(cr) ==> v.has_right(cr) && (
            v.variant.castling_allowed() ==> v.rooks[cr as int] != m.to()),
{
    lemma_after_shape(v, m);
    let b = v.board;
    let a = w.board;
    if v.real_castling(m) {
        lemma_castling_squares(v, m);
    }
    let lost = if m.is_drop() {
        0u8
    } else {
        v.mask[m.from()] | v.mask[v.arrival(m)]
    };
    assert forall|cr: u8| single_right(cr) && #[trigger] w.has_right(cr) implies v.has_right(cr)
        && (v.variant.castling_allowed() ==> w.right_ok(cr) && v.rooks[cr as int] != m.to()) by {
        let old_rights = v.st().castling_rights;
        if !m.is_drop() {
            bv_rights(old_rights, lost, cr);
            bv_or_zero(v.mask[m.from()], v.mask[v.arrival(m)], cr);
        }
        assert(v.has_right(cr));
        if v.variant.castling_allowed() {
            assert(v.right_ok(cr));
            let c = right_color(cr);
            let k = v.ksq(c);
            let r = v.rooks[cr as int] as int;
            assert(is_king_square(b, c, k)) by {
                assert(one_king(b, c));
            }
            assert(w.ksq(c) == k);
            assert(a[r] == rook(c));
        }
    }
    if !v.variant.castling_allowed() {
        if !m.is_drop() {
            bv_rights(v.st().castling_rights, lost, 1);
        }
    }
}

proof fn bv_or_zero(a: u8, b: u8, cr: u8)
    by (bit_vector)
    ensures
        (a | b) & cr == 0 <==> a & cr == 0 && b & cr == 0,
{
}

/// A new en passant square lies behind a pawn that just advanced two squares.
proof fn lemma_after_ep(v: PosView, m: Move, w: PosView)
    requires
        v.wf(),
        v.can_make(m),
        w.board == v.after(m),
        w.stm == v.stm.flip(),
        w.st().ep_square == (if v.opens_en_passant(m) {
            m.from() + v.stm.forward()
        } else {
            64
        }),
    ensures
        w.ep_ok(),
{
    if v.opens_en_passant(m) {
        let us = v.stm;
        let e = m.from() + us.forward();
        let s = choose|s: int|
            on_board(s) && #[trigger] v.board[s] == pawn(us.flip()) && pawn_hit(us, e, s);
        lemma_pawn_hit_mutual(us, e, s);
        assert(w.board[s] == pawn(w.stm) && pawn_hit(w.stm, s, e));
    }
}

/// The parts of a state that carrying out a move on the board leaves alone.
spec fn rest_kept(a: StateInfo, b: StateInfo) -> bool {
    &&& b.plies_from_null == a.plies_from_null
    &&& b.checkers == a.checkers
    &&& b.repetition == a.repetition
    &&& b.checks_given == a.checks_given
    &&& b.must_capture == a.must_capture
}

/// A state at the start of making a move: the previous one, with the clocks advanced.
spec fn fresh(v: PosView, st: StateInfo) -> bool {
    let prev = v.st();
    &&& st.castling_rights == prev.castling_rights
    &&& st.rule50 == prev.rule50 + 1
    &&& st.plies_from_null == prev.plies_from_null + 1
    &&& st.ep_square == prev.ep_square
    &&& st.captured_piece.0 == 12
    &&& st.hand == prev.hand
    &&& st.promoted == prev.promoted
}

impl Position {
    /// The board part of a crazyhouse drop: the piece leaves the pocket and appears.
    fn carry_drop(&mut self, st: &mut StateInfo, m: Move)
        requires
            old(self).wf(),
            old(self)@.can_make(m),
            m.is_drop(),
            fresh(old(self)@, *old(st)),
        ensures
            final(self).board_ok(),
            final(self).keys == old(self).keys,
            final(self)@ == (PosView { board: old(self)@.after(m), ..old(self)@ }),
            rest_kept(*old(st), *final(st)),
            old(self)@.next_core(m, *final(st)),
            residue(old(self)@.after(m), *final(st)) == residue(old(self)@.board, *old(st)),
            forall|strict: bool| #[trigger]
                piece_keys_match(old(self)@.board, *old(st), strict) ==> piece_keys_match(
                    old(self)@.after(m),
                    *final(st),
                    strict,
                ),
    {
        let ghost st0 = *st;
        let us = self.side_to_move;
        let pt = m.drop_piece();
        let c: usize = us.idx();
        let p: usize = pt.idx();
        let n: u8 = st.hand[c][p];
        st.key = st.key ^ self.keys.hand[c][p][n as usize] ^ self.keys.hand[c][p][n as usize - 1];
        let mut row = st.hand[c];
        row[p] = n - 1;
        st.hand[c] = row;
        proof {
            lemma_residue_hand(st0, *st, c as int, p as int);
        }
        let ghost st1 = *st;
        assert(forall|strict: bool|
            #[trigger] piece_keys_match(self@.board, st0, strict) ==> piece_keys_match(
                self@.board,
                st1,
                strict,
            ));
        self.place(st, Piece::make(us, pt), m.to_sq());
        let ghost st2 = *st;
        clear_en_passant(&self.keys, st);
        assert(forall|strict: bool|
            #[trigger] piece_keys_match(self@.board, st2, strict) ==> piece_keys_match(
                self@.board,
                *st,
                strict,
            ));
    }

    /// The board part of castling: king and rook change places.
    fn carry_castling(&mut self, st: &mut StateInfo, m: Move)
        requires
            old(self).wf(),
            old(self)@.can_make(m),
            old(self)@.real_castling(m),
            fresh(old(self)@, *old(st)),
        ensures
            final(self).board_ok(),
            final(self).keys == old(self).keys,
            final(self)@ == (PosView { board: old(self)@.after(m), ..old(self)@ }),
            rest_kept(*old(st), *final(st)),
            old(self)@.next_core(m, *final(st)),
            residue(old(self)@.after(m), *final(st)) == residue(old(self)@.board, *old(st)),
            forall|strict: bool| #[trigger]
                piece_keys_match(old(self)@.board, *old(st), strict) ==> piece_keys_match(
                    old(self)@.after(m),
                    *final(st),
                    strict,
                ),
    {
        let ghost v = self@;
        proof {
            lemma_castling_squares(v, m);
        }
        let us = self.side_to_move;
        let from = m.from_sq();
        let to = m.to_sq();
        let kingside = to > from;
        let kto = relative_square(
            us,
            if kingside {
                6
            } else {
                2
            },
        );
        let rto = relative_square(
            us,
            if kingside {
                5
            } else {
                3
            },
        );
        self.lift(st, from, true);
        self.lift(st, to, true);
        self.place(st, Piece::make(us, PieceType::King), kto);
        self.place(st, Piece::make(us, PieceType::Rook), rto);
        let ghost st2 = *st;
        clear_en_passant(&self.keys, st);
        let lost: u8 = self.castling_rights_mask[from as usize]
            | self.castling_rights_mask[kto as usize];
        drop_rights(&self.keys, st, lost);
        assert(self@.board =~= v.after(m));
        assert(forall|strict: bool|
            #[trigger] piece_keys_match(self@.board, st2, strict) ==> piece_keys_match(
                self@.board,
                *st,
                strict,
            ));
    }

    /// Takes the captured piece of an ordinary move off the board.
    fn carry_capture(&mut self, st: &mut StateInfo, m: Move)
        requires
            old(self).wf(),
            old(self)@.can_make(m),
            !m.is_drop(),
            !old(self)@.real_castling(m),
            fresh(old(self)@, *old(st)),
        ensures
            final(self).board_ok(),
            final(self).keys == old(self).keys,
            final(self)@ == (PosView {
                board: if old(self)@.captured(m).0 < 12 {
                    old(self)@.board.update(old(self)@.capture_square(m), Piece(12))
                } else {
                    old(self)@.board
                },
                ..old(self)@
            }),
            rest_kept(*old(st), *final(st)),
            final(st).castling_rights == old(st).castling_rights,
            final(st).ep_square == old(st).ep_square,
            final(st).rule50 == (if old(self)@.captured(m).0 < 12 {
                0
            } else {
                old(st).rule50 as int
            }),
            final(st).captured_piece == old(self)@.captured(m),
            forall|c: int, p: int|
                0 <= c < 2 && 0 <= p < 5 ==> #[trigger] final(st).hand@[c]@[p] == old(
                    self,
                )@.hand_after(m, c, p),
            forall|x: int| #[trigger]
                holds(final(st).promoted, x) <==> old(self)@.mark_after_capture(m, x),
            residue(final(self)@.board, *final(st)) == residue(old(self)@.board, *old(st)),
            forall|strict: bool| #[trigger]
                piece_keys_match(old(self)@.board, *old(st), strict) ==> piece_keys_match(
                    final(self)@.board,
                    *final(st),
                    strict && old(self)@.variant.royal_king(),
                ),
    {
        let ghost v = self@;
        let us = self.side_to_move;
        let to = m.to_sq();
        let captured = if m.is_en_passant() {
            Piece::make(us.flip(), PieceType::Pawn)
        } else {
            self.piece_on(to)
        };
        if captured.is_some() {
            let capsq: Square = if m.is_en_passant() {
                (to as i32 - us.forward()) as Square
            } else {
                to
            };
            proof {
                assert(v.board[capsq as int] == captured);
            }
            self.lift(st, capsq, false);
            let ghost st1 = *st;
            st.rule50 = 0;
            st.captured_piece = captured;
            let ghost st2 = *st;
            proof {
                lemma_residue_ignores(self@.board, st1, st2);
            }
            if self.variant == Variant::Crazyhouse {
                pocket_captured(&self.keys, st, us, captured, capsq);
            }
            assert(forall|strict: bool|
                #[trigger] piece_keys_match(self@.board, st1, strict) ==> piece_keys_match(
                    self@.board,
                    *st,
                    strict,
                ));
        }
    }

    /// The board part of an ordinary move: the capture, the move and the promotion.
    #[verifier::rlimit(30)]
    fn carry_move(&mut self, st: &mut StateInfo, m: Move)
        requires
            old(self).wf(),
            old(self)@.can_make(m),
            !m.is_drop(),
            !old(self)@.real_castling(m),
            fresh(old(self)@, *old(st)),
        ensures
            final(self).board_ok(),
            final(self).keys == old(self).keys,
            final(self)@ == (PosView { board: old(self)@.after(m), ..old(self)@ }),
            rest_kept(*old(st), *final(st)),
            old(self)@.next_core(m, *final(st)),
            old(self)@.marks_ok() ==> residue(old(self)@.after(m), *final(st)) == residue(
                old(self)@.board,
                *old(st),
            ),
            forall|strict: bool| #[trigger]
                piece_keys_match(old(self)@.board, *old(st), strict) ==> piece_keys_match(
                    old(self)@.after(m),
                    *final(st),
                    strict && old(self)@.variant.royal_king(),
                ),
    {
        let ghost v = self@;
        let us = self.side_to_move;
        let them = us.flip();
        let from = m.from_sq();
        let to = m.to_sq();
        let pc = self.piece_on(from);
        self.carry_capture(st, m);
        let promo = self.promotion_piece(m);
        let arriving = match promo {
            Some(pt) => Piece::make(us, pt),
            None => pc,
        };
        self.lift(st, from, true);
        self.place(st, arriving, to);
        let ghost st1 = *st;
        assert(self@.board =~= v.after(m));
        carry_mark(&self.keys, st, from, to);
        let ghost st2 = *st;
        clear_en_passant(&self.keys, st);
        let lost: u8 = self.castling_rights_mask[from as usize]
            | self.castling_rights_mask[to as usize];
        drop_rights(&self.keys, st, lost);
        let ghost st3 = *st;
        if pc.piece_type() == PieceType::Pawn {
            st.rule50 = 0;
            proof {
                lemma_residue_ignores(self@.board, st3, *st);
            }
            let mut opened = false;
            let gap: u8 = if to > from {
                to - from
            } else {
                from - to
            };
            if gap == 16 {
                let ep = (to as i32 - us.forward()) as Square;
                let answer = pawn_attacks(us, ep) & self.pieces_cp(them, PieceType::Pawn);
                proof {
                    if answer != 0 {
                        lemma_lowest(answer);
                        assert(v.board[lowest(answer)] == pawn(them));
                    } else {
                        assert forall|s: int|
                            on_board(s) && #[trigger] v.board[s] == pawn(them) && pawn_hit(
                                us,
                                ep as int,
                                s,
                            ) implies false by {
                            assert(!holds(answer, s));
                        }
                    }
                    assert((answer != 0) == v.opens_en_passant(m));
                }
                if answer != 0 {
                    opened = true;
                    set_en_passant(&self.keys, st, ep);
                }
            }
            if !opened && promo.is_some() && self.variant == Variant::Crazyhouse {
                proof {
                    if v.marks_ok() {
                        assert(!holds(v.st().promoted, from as int));
                        assert(!v.mark_after_capture(m, to as int));
                        assert(!holds(st.promoted, to as int));
                    }
                }
                mark_promoted(&self.keys, st, to);
            }
        }
        assert(forall|strict: bool|
            #[trigger] piece_keys_match(self@.board, st1, strict) ==> piece_keys_match(
                self@.board,
                *st,
                strict,
            ));
    }

    /// Makes `m`. `gives_check` is the precomputed check flag.
    pub fn make_move(&mut self, m: Move, gives_check: bool)
        requires
            old(self).wf(),
            old(self)@.can_make(m),
            old(self)@.variant.royal_king() || !gives_check,
        ensures
            final(self).wf(),
            final(self).keys == old(self).keys,
            old(self)@.made(m, gives_check, final(self)@),
            old(self)@.keys_match() && old(self)@.marks_ok() ==> final(self)@.keys_match()
                && final(self)@.marks_ok(),
    {
        let ghost v = self@;
        proof {
            lemma_after_shape(v, m);
        }
        let prev = *self.state();
        let mut st = prev;
        st.rule50 = prev.rule50 + 1;
        st.plies_from_null = prev.plies_from_null + 1;
        st.key = prev.key ^ self.keys.side;
        st.checkers = 0;
        st.captured_piece = Piece(12);
        st.repetition = 0;
        st.must_capture = false;
        let us = self.side_to_move;
        let them = us.flip();
        let ghost st1 = st;
        proof {
            lemma_side_residue(v, st1);
            assert(piece_keys_match(v.board, v.st(), v.variant.royal_king())
                ==> piece_keys_match(v.board, st1, v.variant.royal_king()));
        }
        if m.is_drop() {
            self.carry_drop(&mut st, m);
        } else if self.is_real_castling(m) {
            self.carry_castling(&mut st, m);
        } else {
            self.carry_move(&mut st, m);
        }
        let ghost b1 = v.after(m);
        let ghost st2 = st;
        self.game_ply = self.game_ply + 1;
        self.side_to_move = them;
        assert(self@.shape_ok());
        if gives_check {
            proof {
                assert(self@.board[king_sq(b1, them)] == king(them)) by {
                    assert(one_king(b1, them));
                }
            }
            st.checkers = self.attackers_to(self.king_square(them), self.pieces()) & self.pieces_c(
                us,
            );
            proof {
                lemma_residue_ignores(b1, st2, st);
            }
            if self.variant == Variant::ThreeCheck && !m.is_drop() {
                count_check(&self.keys, &mut st, us);
            }
        }
        let ghost st3 = st;
        self.finish_make(st);
        proof {
            let w = self@;
            lemma_after_castling(v, m, w);
            lemma_after_ep(v, m, w);
            assert(w.st().castling_rights < 16) by {
                if !m.is_drop() {
                    bv_rights(
                        v.st().castling_rights,
                        v.mask[m.from()] | v.mask[v.arrival(m)],
                        1,
                    );
                }
            }
            assert forall|c: int, p: int|
                0 <= c < 2 && 0 <= p < 5 implies #[trigger] w.st().hand@[c]@[p] <= 16 by {
                assert(v.st().hand@[c]@[p] <= 16);
            }
            assert(w.st().captured_piece.0 <= 12);
            assert(w.counters_ok());
            lemma_residue_ignores(b1, st3, w.st());
            if v.keys_match() && v.marks_ok() {
                lemma_after_marks(v, m, w);
                lemma_residue(v.board, v.stm, v.st());
                lemma_residue(w.board, w.stm, w.st());
                assert(piece_keys_match(b1, st2, v.variant.royal_king()));
                assert(piece_keys_match(b1, w.st(), v.variant.royal_king()));
            }
        }
    }
}

/// Switching sides toggles the side's word of the key.
proof fn lemma_side_residue(v: PosView, st: StateInfo)
    requires
        v.states.len() >= 1,
        st == (StateInfo {
            key: v.st().key ^ key_side(),
            rule50: st.rule50,
            plies_from_null: st.plies_from_null,
            checkers: st.checkers,
            captured_piece: st.captured_piece,
            repetition: st.repetition,
            must_capture: st.must_capture,
            ..v.st()
        }),
    ensures
        residue(v.board, v.st()) == side_key(v.stm) ==> residue(v.board, st) == side_key(
            v.stm.flip(),
        ),
{
    reveal(residue);
    lemma_pocket_same(v.st(), st, 0, 5);
    lemma_pocket_same(v.st(), st, 1, 5);
    if residue(v.board, v.st()) == side_key(v.stm) {
        let r = residue(v.board, v.st());
        assert forall|s: int| holds(residue(v.board, st), s) == holds(side_key(v.stm.flip()), s) by {
            assert(holds(r, s) == holds(side_key(v.stm), s));
        }
        lemma_ext(residue(v.board, st), side_key(v.stm.flip()));
    }
}

/// The residue of a key depends only on what the key covers.
proof fn lemma_residue_ignores(b: Board, a: StateInfo, c: StateInfo)
    requires
        a.key == c.key,
        a.ep_square == c.ep_square,
        a.castling_rights == c.castling_rights,
        a.checks_given == c.checks_given,
        a.hand == c.hand,
        a.promoted == c.promoted,
    ensures
        residue(b, a) == residue(b, c),
{
    reveal(residue);
    lemma_pocket_same(a, c, 0, 5);
    lemma_pocket_same(a, c, 1, 5);
}

/// Promoted-piece marks stay on promoted pieces.
proof fn lemma_after_marks(v: PosView, m: Move, w: PosView)
    requires
        v.wf(),
        v.can_make(m),
        v.marks_ok(),
        w.wf(),
        w.board == v.after(m),
        w.variant == v.variant,
        w.rooks == v.rooks,
        forall|cr: u8|
            single_right(cr) && #[trigger] w.has_right(cr) ==> v.has_right(cr) && (
            v.variant.castling_allowed() ==> v.rooks[cr as int] != m.to()),
        forall|x: int| #[trigger]
            holds(w.st().promoted, x) <==> on_board(x) && v.mark_after(m, x),
    ensures
        w.marks_ok(),
{
    if v.real_castling(m) {
        lemma_castling_squares(v, m);
    }
    assert forall|x: int| #[trigger] holds(w.st().promoted, x) implies w.board[x].0 < 12
        && w.board[x].piece_type() != PieceType::Pawn && w.board[x].piece_type() != PieceType::King
        && forall|cr: u8|
        single_right(cr) && #[trigger] w.has_right(cr) ==> w.rooks[cr as int] != x by {
        assert(v.mark_after(m, x));
    }
    if v.variant != Variant::Crazyhouse {
        assert(w.st().promoted == 0) by {
            lemma_empty(w.st().promoted);
            assert forall|x: int| !#[trigger] holds(w.st().promoted, x) by {
                if holds(w.st().promoted, x) {
                    assert(v.mark_after(m, x));
                }
            }
        }
    }
}

impl Position {
    /// Takes back `m`, the move last made.
    pub fn unmake_move(&mut self, m: Move)
        requires
            old(self).board_ok(),
            old(self)@.undoable(m),
        ensures
            final(self).board_ok(),
            final(self).keys == old(self).keys,
            final(self)@ == old(self)@.undo(m),
    {
        let ghost w = self@;
        self.side_to_move = self.side_to_move.flip();
        let us = self.side_to_move;
        if m.is_drop() {
            self.remove_piece(m.to_sq());
        } else {
            let from = m.from_sq();
            let to = m.to_sq();
            if self.is_real_castling(m) {
                let kingside = to > from;
                let kto = relative_square(
                    us,
                    if kingside {
                        6
                    } else {
                        2
                    },
                );
                let rto = relative_square(
                    us,
                    if kingside {
                        5
                    } else {
                        3
                    },
                );
                self.remove_piece(kto);
                self.remove_piece(rto);
                self.put_piece(Piece::make(us, PieceType::King), from);
                self.put_piece(Piece::make(us, PieceType::Rook), to);
            } else {
                if self.promotion_piece(m).is_some() {
                    self.remove_piece(to);
                    self.put_piece(Piece::make(us, PieceType::Pawn), to);
                }
                self.move_piece(to, from);
                let captured = self.state().captured_piece;
                if captured.is_some() {
                    let capsq: Square = if m.is_en_passant() {
                        (to as i32 - us.forward()) as Square
                    } else {
                        to
                    };
                    self.put_piece(captured, capsq);
                }
            }
        }
        self.states.pop();
        self.game_ply = self.game_ply - 1;
        proof {
            assert(self@.board =~= w.undo(m).board);
            assert(self@.states =~= w.states.drop_last());
        }
    }

    /// Passes the turn.
    pub fn make_null_move(&mut self)
        requires
            old(self).wf(),
            old(self)@.st().checkers == 0,
            old(self)@.st().rule50 < i32::MAX,
        ensures
            final(self).wf(),
            final(self).keys == old(self).keys,
            old(self)@.passed(final(self)@),
            old(self)@.keys_match() ==> final(self)@.keys_match(),
            old(self)@.marks_ok() ==> final(self)@.marks_ok(),
    {
        let ghost v = self@;
        let mut st = *self.state();
        st.key = st.key ^ self.keys.side;
        st.rule50 = st.rule50 + 1;
        st.plies_from_null = 0;
        st.captured_piece = Piece(12);
        st.repetition = 0;
        st.must_capture = false;
        let ghost st1 = st;
        clear_en_passant(&self.keys, &mut st);
        let ghost st2 = st;
        self.side_to_move = self.side_to_move.flip();
        self.states.push(st);
        proof {
            assert(self@.st() == st2);
            assert(self@.shape_ok());
        }
        self.set_check_info();
        proof {
            let w = self@;
            assert(w.states =~= v.states.push(w.st()));
            assert forall|cr: u8|
                single_right(cr) && #[trigger] w.has_right(cr) && w.variant.castling_allowed()
                    implies w.right_ok(cr) by {
                assert(v.has_right(cr));
                assert(v.right_ok(cr));
            }
            assert forall|c: int, p: int|
                0 <= c < 2 && 0 <= p < 5 implies #[trigger] w.st().hand@[c]@[p] <= 16 by {
                assert(v.st().hand@[c]@[p] <= 16);
            }
            lemma_side_residue(v, st1);
            lemma_residue_ignores(w.board, st2, w.st());
            lemma_residue(v.board, v.stm, v.st());
            lemma_residue(w.board, w.stm, w.st());
            if v.keys_match() {
                assert(piece_keys_match(w.board, w.st(), w.variant.royal_king()));
            }
            if v.marks_ok() {
                assert forall|x: int| #[trigger] holds(w.st().promoted, x) implies w.board[x].0 < 12
                    && w.board[x].piece_type() != PieceType::Pawn && w.board[x].piece_type()
                    != PieceType::King && forall|cr: u8|
                    single_right(cr) && #[trigger] w.has_right(cr) ==> w.rooks[cr as int] != x by {
                    assert(holds(v.st().promoted, x));
                    assert forall|cr: u8| single_right(cr) && #[trigger] w.has_right(cr) implies
                        w.rooks[cr as int] != x by {
                        assert(v.has_right(cr));
                    }
                }
            }
        }
    }

    /// Takes back a pass.
    pub fn unmake_null_move(&mut self)
        requires
            old(self).board_ok(),
            old(self)@.states.len() >= 2,
        ensures
            final(self).board_ok(),
            final(self).keys == old(self).keys,
            final(self)@ == (PosView {
                stm: old(self)@.stm.flip(),
                states: old(self)@.states.drop_last(),
                ..old(self)@
            }),
    {
        let ghost w = self@;
        self.states.pop();
        self.side_to_move = self.side_to_move.flip();
        proof {
            assert(self@.states =~= w.states.drop_last());
        }
    }

    /// Hash key the position would have after `m` as far as the moved and captured pieces
    /// and the en passant square go, for prefetching.
    pub fn key_after(&self, m: Move) -> (r: u64)
        requires
            self.wf(),
            m.is_drop() || self@.board[m.from()].0 < 12,
        ensures
            r == self@.foreseen_key(m),
    {
        let from = m.from_sq();
        let to = m.to_sq();
        let mut k: u64 = self.key() ^ self.keys.side;
        let ep = self.ep_square();
        if ep != SQ_NONE {
            k = k ^ self.keys.en_passant[file_of(ep) as usize];
        }
        if m.is_drop() {
            return k ^ psq_key(&self.keys, Piece::make(self.side_to_move, m.drop_piece()), to);
        }
        let pc = self.piece_on(from);
        let captured = self.piece_on(to);
        if captured.is_some() {
            k = k ^ psq_key(&self.keys, captured, to);
        }
        k ^ psq_key(&self.keys, pc, from) ^ psq_key(&self.keys, pc, to)
    }
}

impl PosView {
    /// The key with the turn passed on and the en passant square gone.
    pub open spec fn key_without_ep(self) -> u64 {
        let k = self.st().key ^ key_side();
        if self.st().ep_square != SQ_NONE {
            k ^ ep_key(self.st())
        } else {
            k
        }
    }

    /// The key after `m` as far as the moved and captured pieces and the en passant square
    /// go.
    pub open spec fn foreseen_key(self, m: Move) -> u64 {
        let k = self.key_without_ep();
        if m.is_drop() {
            k ^ key_psq(self.mover(m).0 as int, m.to())
        } else if self.board[m.to()].0 < 12 {
            ((k ^ key_psq(self.board[m.to()].0 as int, m.to())) ^ key_psq(
                self.board[m.from()].0 as int,
                m.from(),
            )) ^ key_psq(self.board[m.from()].0 as int, m.to())
        } else {
            (k ^ key_psq(self.board[m.from()].0 as int, m.from())) ^ key_psq(
                self.board[m.from()].0 as int,
                m.to(),
            )
        }
    }
}

/// The foreseen key is the key after the move wherever a piece other than a pawn moves
/// without castling and nothing but the board, the turn and the en passant square changes.
pub proof fn pieces_move_to_the_foreseen_key(v: PosView, m: Move, gives_check: bool, w: PosView)
    requires
        v.wf(),
        v.can_make(m),
        v.made(m, gives_check, w),
        v.keys_match(),
        w.keys_match(),
        !m.is_drop(),
        !m.is_castling(),
        v.board[m.from()] != pawn(v.stm),
        w.st().castling_rights == v.st().castling_rights,
        variant_key(w.st()) == variant_key(v.st()),
    ensures
        w.st().key == v.foreseen_key(m),
{
    let b = v.board;
    let (from, to) = (m.from(), m.to());
    let pc = b[from];
    let b1 = b.update(from, Piece(12));
    lemma_group_update(b, Group::All, from, Piece(12));
    lemma_group_update(b1, Group::All, to, pc);
    assert(w.board == b1.update(to, pc));
    assert(w.st().ep_square == SQ_NONE);
    lemma_ext(w.st().key, v.foreseen_key(m));
}

/// Taking a move back restores the position it was made in, whatever the move.
pub proof fn unmake_undoes_make(v: PosView, m: Move, gives_check: bool, w: PosView)
    requires
        v.wf(),
        v.can_make(m),
        v.game_ply > i32::MIN,
        v.made(m, gives_check, w),
    ensures
        w.undoable(m),
        w.undo(m) == v,
{
    if v.real_castling(m) {
        lemma_castling_squares(v, m);
    }
    let u = PosView { stm: w.stm.flip(), ..w };
    assert(u.castle_king_to(m) == v.castle_king_to(m));
    assert(u.castle_rook_to(m) == v.castle_rook_to(m));
    assert(u.capture_square(m) == v.capture_square(m));
    assert(w.undo(m).board =~= v.board);
    assert(w.undo(m).states =~= v.states);
}

/// Taking back a pass restores the position it was made in.
pub proof fn unmake_undoes_pass(v: PosView, w: PosView)
    requires
        v.states.len() >= 1,
        v.passed(w),
    ensures
        w.states.len() >= 2,
        (PosView { stm: w.stm.flip(), states: w.states.drop_last(), ..w }) == v,
{
    assert(w.states.drop_last() =~= v.states);
}

/// A castling right left after a move was there before, and its king has not moved.
pub proof fn lemma_rights_after(v: PosView, m: Move, w: PosView, cr: u8)
    requires
        v.wf(),
        v.variant.royal_king(),
        v.can_make(m),
        w.board == v.after(m),
        w.variant == v.variant,
        w.mask == v.mask,
        w.rooks == v.rooks,
        w.path == v.path,
        w.st().castling_rights == (if m.is_drop() {
            v.st().castling_rights
        } else {
            v.st().castling_rights & !(v.mask[m.from()] | v.mask[v.arrival(m)])
        }),
        single_right(cr),
        w.has_right(cr),
    ensures
        v.has_right(cr),
        w.ksq(right_color(cr)) == v.ksq(right_color(cr)),
{
    lemma_after_castling(v, m, w);
    lemma_after_shape(v, m);
    assert(v.has_right(cr));
    if !v.variant.castling_allowed() {
        bv_rights(v.st().castling_rights, 0, cr);
        assert(false);
    }
    assert(v.right_ok(cr));
    let c = right_color(cr);
    let k = v.ksq(c);
    assert(one_king(v.board, c));
    if !m.is_drop() {
        let lost = v.mask[m.from()] | v.mask[v.arrival(m)];
        bv_rights(v.st().castling_rights, lost, cr);
        bv_or_zero(v.mask[m.from()], v.mask[v.arrival(m)], cr);
    }
}

/// Promoted-piece marks stay on promoted pieces whatever move is made.
pub proof fn lemma_marks_after(v: PosView, m: Move, g: bool, w: PosView)
    requires
        v.wf(),
        v.can_make(m),
        v.marks_ok(),
        v.made(m, g, w),
        w.wf(),
    ensures
        w.marks_ok(),
{
    lemma_after_castling(v, m, w);
    lemma_after_marks(v, m, w);
}

} // verus!
