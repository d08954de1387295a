//! Hash keys of a position, computed from scratch, and how they change with one square.

use vstd::prelude::*;

use crate::bits::{group_has, holds, lemma_ext};
use crate::rules::{count, lemma_count_update, Board, PosView};
use crate::state::StateInfo;
use crate::types::{file, Color, Piece, PieceType, SQ_NONE};
use crate::zobrist::{
    key_castling, key_checks, key_en_passant, key_hand, key_no_pawns, key_promoted, key_psq,
    key_side,
};

verus! {

/// The piece groups that have a key of their own.
pub enum Group {
    All,
    Pawns,
    Pieces(Color),
    Minors,
}

/// Piece `p` belongs to the group.
pub open spec fn in_group(g: Group, p: Piece) -> bool {
    p.0 < 12 && match g {
        Group::All => true,
        Group::Pawns => p.piece_type() == PieceType::Pawn,
        Group::Pieces(c) => p.piece_type() != PieceType::Pawn && p.color() == c,
        Group::Minors => p.piece_type() == PieceType::Knight || p.piece_type()
            == PieceType::Bishop || p.piece_type() == PieceType::King,
    }
}

/// What piece `p` on square `s` contributes to the key of a group.
pub open spec fn share(g: Group, p: Piece, s: int) -> u64 {
    if in_group(g, p) {
        key_psq(p.0 as int, s)
    } else {
        0
    }
}

/// Key of a group over the squares below `n`.
pub open spec fn group_key_below(b: Board, g: Group, n: nat) -> u64
    decreases n,
{
    if n == 0 {
        0
    } else {
        group_key_below(b, g, (n - 1) as nat) ^ share(g, b[n - 1], n - 1)
    }
}

/// Key of a group of pieces.
pub open spec fn group_key(b: Board, g: Group) -> u64 {
    group_key_below(b, g, 64)
}

/// Material key of `n` pieces of kind `p`.
pub open spec fn pile_key(p: int, n: nat) -> u64
    decreases n,
{
    if n == 0 {
        0
    } else {
        pile_key(p, (n - 1) as nat) ^ key_psq(p, n - 1)
    }
}

/// Material key of the piece kinds below `n`.
pub open spec fn material_below(b: Board, n: nat) -> u64
    decreases n,
{
    if n == 0 {
        0
    } else {
        material_below(b, (n - 1) as nat) ^ pile_key(n - 1, count(b, n - 1))
    }
}

/// Key of the piece counts.
pub open spec fn material(b: Board) -> u64 {
    material_below(b, 12)
}

/// Key of the marked squares below `n`.
pub open spec fn marks_below(m: u64, n: nat) -> u64
    decreases n,
{
    if n == 0 {
        0
    } else {
        marks_below(m, (n - 1) as nat) ^ if holds(m, n - 1) {
            key_promoted(n - 1)
        } else {
            0
        }
    }
}

/// Key of colour `c`'s pocket up to piece type `n`.
pub open spec fn pocket_below(st: StateInfo, c: int, n: nat) -> u64
    decreases n,
{
    if n == 0 {
        0
    } else {
        pocket_below(st, c, (n - 1) as nat) ^ key_hand(c, n - 1, st.hand@[c]@[n - 1] as int)
    }
}

/// Key of the state that only variants have: checks given, pockets, promoted pieces.
pub open spec fn variant_key(st: StateInfo) -> u64 {
    ((key_checks(0, st.checks_given@[0] as int) ^ pocket_below(st, 0, 5)) ^ (key_checks(
        1,
        st.checks_given@[1] as int,
    ) ^ pocket_below(st, 1, 5))) ^ marks_below(st.promoted, 64)
}

/// The key of a position, computed from scratch.
pub open spec fn full_key(b: Board, stm: Color, st: StateInfo) -> u64 {
    (((group_key(b, Group::All) ^ ep_key(st)) ^ side_key(stm)) ^ key_castling(
        st.castling_rights as int,
    )) ^ variant_key(st)
}

/// The keys that depend on the pieces alone match the board; `minors` says whether the
/// minor-piece key is among them.
pub open spec fn piece_keys_match(b: Board, st: StateInfo, minors: bool) -> bool {
    &&& st.pawn_key == key_no_pawns() ^ group_key(b, Group::Pawns)
    &&& st.nonpawn_key@[0] == group_key(b, Group::Pieces(Color::White))
    &&& st.nonpawn_key@[1] == group_key(b, Group::Pieces(Color::Black))
    &&& minors ==> st.minor_key == group_key(b, Group::Minors)
    &&& st.material_key == material(b)
}

/// What the side to move contributes to the key.
pub open spec fn side_key(stm: Color) -> u64 {
    if stm == Color::Black {
        key_side()
    } else {
        0
    }
}

/// What the en passant square contributes to the key.
pub open spec fn ep_key(st: StateInfo) -> u64 {
    if st.ep_square == SQ_NONE {
        0
    } else {
        key_en_passant(file(st.ep_square as int))
    }
}

/// What is left of a state's key once everything but the side to move is taken out.
#[verifier::opaque]
pub open spec fn residue(b: Board, st: StateInfo) -> u64 {
    (((st.key ^ group_key(b, Group::All)) ^ ep_key(st)) ^ key_castling(st.castling_rights as int))
        ^ variant_key(st)
}

impl PosView {
    /// Every key of the current state is the one computed from scratch. Capturing a king
    /// (antichess) leaves the minor-piece key behind, so it is promised in royal games only.
    pub open spec fn keys_match(self) -> bool {
        &&& self.st().key == full_key(self.board, self.stm, self.st())
        &&& piece_keys_match(self.board, self.st(), self.variant.royal_king())
    }
}

/// A key matches exactly when nothing but the side to move is left of it.
pub proof fn lemma_residue(b: Board, stm: Color, st: StateInfo)
    ensures
        st.key == full_key(b, stm, st) <==> residue(b, st) == side_key(stm),
{
    broadcast use group_has;

    reveal(residue);
    if st.key == full_key(b, stm, st) {
        lemma_ext(residue(b, st), side_key(stm));
    }
    if residue(b, st) == side_key(stm) {
        let r = residue(b, st);
        assert forall|s: int| holds(st.key, s) == holds(full_key(b, stm, st), s) by {
            assert(holds(r, s) == holds(side_key(stm), s));
        }
        lemma_ext(st.key, full_key(b, stm, st));
    }
}

proof fn lemma_group_below_update(b: Board, g: Group, s: int, q: Piece, n: nat)
    requires
        b.len() == 64,
        0 <= s < 64,
        n <= 64,
    ensures
        group_key_below(b.update(s, q), g, n) == (if s < n {
            (group_key_below(b, g, n) ^ share(g, b[s], s)) ^ share(g, q, s)
        } else {
            group_key_below(b, g, n)
        }),
    decreases n,
{
    broadcast use group_has;

    if n > 0 {
        lemma_group_below_update(b, g, s, q, (n - 1) as nat);
        let c = b.update(s, q);
        if s < n {
            lemma_ext(
                group_key_below(c, g, n),
                (group_key_below(b, g, n) ^ share(g, b[s], s)) ^ share(g, q, s),
            );
        }
    }
}

/// Changing one square swaps the share of the old piece for that of the new one.
pub proof fn lemma_group_update(b: Board, g: Group, s: int, q: Piece)
    requires
        b.len() == 64,
        0 <= s < 64,
    ensures
        group_key(b.update(s, q), g) == (group_key(b, g) ^ share(g, b[s], s)) ^ share(g, q, s),
{
    lemma_group_below_update(b, g, s, q, 64);
}

proof fn lemma_material_below_update(b: Board, s: int, q: Piece, n: nat)
    requires
        b.len() == 64,
        0 <= s < 64,
        n <= 12,
        b[s].0 != q.0,
        b[s].0 >= 12 || q.0 >= 12,
        b[s].0 < 12 || q.0 < 12,
    ensures
        ({
            let p = if q.0 < 12 {
                q.0 as int
            } else {
                b[s].0 as int
            };
            let lo = if q.0 < 12 {
                count(b, p) as int
            } else {
                count(b, p) - 1
            };
            material_below(b.update(s, q), n) == (if p < n {
                material_below(b, n) ^ key_psq(p, lo)
            } else {
                material_below(b, n)
            })
        }),
    decreases n,
{
    broadcast use group_has;

    let p = if q.0 < 12 {
        q.0 as int
    } else {
        b[s].0 as int
    };
    if n > 0 {
        lemma_material_below_update(b, s, q, (n - 1) as nat);
        lemma_count_update(b, s, q, n - 1);
        crate::rules::lemma_count_bound(b, p, s);
        let c = b.update(s, q);
        let lo = if q.0 < 12 {
            count(b, p) as int
        } else {
            count(b, p) - 1
        };
        if p == n - 1 {
            assert(pile_key(p, (lo + 1) as nat) == pile_key(p, lo as nat) ^ key_psq(p, lo));
            lemma_ext(material_below(c, n), material_below(b, n) ^ key_psq(p, lo));
        } else if p < n {
            lemma_ext(material_below(c, n), material_below(b, n) ^ key_psq(p, lo));
        }
    }
}

/// Taking a piece off, or putting one on an empty square, toggles one material word.
pub proof fn lemma_material_update(b: Board, s: int, q: Piece)
    requires
        b.len() == 64,
        0 <= s < 64,
        b[s].0 <= 12,
        q.0 <= 12,
        b[s].0 == 12 || q.0 == 12,
        b[s].0 < 12 || q.0 < 12,
    ensures
        q.0 < 12 ==> material(b.update(s, q)) == material(b) ^ key_psq(
            q.0 as int,
            count(b, q.0 as int) as int,
        ),
        q.0 == 12 ==> material(b.update(s, q)) == material(b) ^ key_psq(
            b[s].0 as int,
            count(b, b[s].0 as int) - 1,
        ),
{
    lemma_material_below_update(b, s, q, 12);
}

/// Changing one mark toggles its word.
pub proof fn lemma_marks_toggle(m: u64, w: u64, s: int, n: nat)
    requires
        0 <= s < 64,
        n <= 64,
        forall|x: int| 0 <= x < 64 ==> (holds(w, x) <==> holds(m, x) != (x == s)),
    ensures
        marks_below(w, n) == (if s < n {
            marks_below(m, n) ^ key_promoted(s)
        } else {
            marks_below(m, n)
        }),
    decreases n,
{
    broadcast use group_has;

    if n > 0 {
        lemma_marks_toggle(m, w, s, (n - 1) as nat);
        if s < n {
            lemma_ext(marks_below(w, n), marks_below(m, n) ^ key_promoted(s));
        }
    }
}

/// Changing one pocket count swaps its word.
pub proof fn lemma_pocket_change(a: StateInfo, b: StateInfo, c: int, p: int, n: nat)
    requires
        0 <= c < 2,
        0 <= p < 5,
        n <= 5,
        forall|q: int| 0 <= q < 5 && q != p ==> a.hand@[c]@[q] == b.hand@[c]@[q],
    ensures
        pocket_below(b, c, n) == (if p < n {
            (pocket_below(a, c, n) ^ key_hand(c, p, a.hand@[c]@[p] as int)) ^ key_hand(
                c,
                p,
                b.hand@[c]@[p] as int,
            )
        } else {
            pocket_below(a, c, n)
        }),
    decreases n,
{
    broadcast use group_has;

    if n > 0 {
        lemma_pocket_change(a, b, c, p, (n - 1) as nat);
        if p < n {
            lemma_ext(
                pocket_below(b, c, n),
                (pocket_below(a, c, n) ^ key_hand(c, p, a.hand@[c]@[p] as int)) ^ key_hand(
                    c,
                    p,
                    b.hand@[c]@[p] as int,
                ),
            );
        }
    }
}

/// A pocket's key depends on its counts alone.
pub proof fn lemma_pocket_same(a: StateInfo, b: StateInfo, c: int, n: nat)
    requires
        0 <= c < 2,
        n <= 5,
        forall|q: int| 0 <= q < 5 ==> a.hand@[c]@[q] == b.hand@[c]@[q],
    ensures
        pocket_below(b, c, n) == pocket_below(a, c, n),
    decreases n,
{
    if n > 0 {
        lemma_pocket_same(a, b, c, (n - 1) as nat);
    }
}

} // verus!
