//! When a game is over or about to be: repetition, the fifty-move rule, bare material and
//! the race of Racing Kings.

use vstd::prelude::*;

use crate::bitboard::{between_bb, lemma_masks, more_than_one, sq_bb, DARK_SQUARES, LIGHT_SQUARES};
use crate::bits::{group_has, holds, lemma_empty, lemma_lowest, lowest};
use crate::cuckoo::Cuckoo;
use crate::geometry::{clear, on_board};
use crate::movegen::{generate_legal, tested};
use crate::moves::lemma_adds_contains;
use crate::position::Position;
use crate::rules::{lemma_occ, occ, one_king, reversible_plies, Board, PosView};
use crate::types::{
    file, mate_in, mated_in, rank, rank_of, Color, Move, MoveList, PieceType, Value, VALUE_DRAW,
};
use crate::variant::Variant;
use crate::zobrist::key_side;

verus! {

broadcast use {group_has, lemma_occ};

/// A knight or bishop of either side stands on `s`.
pub open spec fn minor_on(b: Board, s: int) -> bool {
    on_board(s) && b[s].0 < 12 && (b[s].piece_type() == PieceType::Knight || b[s].piece_type()
        == PieceType::Bishop)
}

/// Colour of a square: 0 dark, 1 light.
pub open spec fn square_color(s: int) -> int {
    (file(s) + rank(s)) % 2
}

impl PosView {
    /// There is a legal move.
    pub open spec fn can_move(self) -> bool {
        exists|m: Move| #[trigger] tested(self).contains(m)
    }

    /// The position occurred before inside the search tree, or twice before.
    pub open spec fn repeated_within(self, ply: int) -> bool {
        self.st().repetition != 0 && self.st().repetition < ply
    }

    /// Fifty moves by each side without progress.
    pub open spec fn fifty_moves(self) -> bool {
        self.st().rule50 > 99 && (self.st().checkers == 0 || self.can_move())
    }

    /// Some position since the last irreversible move has occurred before.
    pub open spec fn repeated_since(self) -> bool {
        exists|k: int|
            0 <= k <= reversible_plies(self.st()) - 4 && (#[trigger] self.states[self.states.len()
                - 1 - k]).repetition != 0
    }

    /// Bare kings, a single minor piece, or only bishops that share a square colour.
    pub open spec fn insufficient(self) -> bool {
        let b = self.board;
        &&& self.variant == Variant::Standard || self.variant == Variant::Chess960 || self.variant
            == Variant::ThreeCheck
        &&& forall|s: int|
            on_board(s) && (#[trigger] b[s]).0 < 12 ==> b[s].piece_type() == PieceType::King
                || minor_on(b, s)
        &&& {
            ||| forall|s: int, t: int| #[trigger] minor_on(b, s) && #[trigger] minor_on(b, t) ==> s
                == t
            ||| forall|s: int| #[trigger]
                minor_on(b, s) ==> b[s].piece_type() == PieceType::Bishop && square_color(s) == 0
            ||| forall|s: int| #[trigger]
                minor_on(b, s) ==> b[s].piece_type() == PieceType::Bishop && square_color(s) == 1
        }
    }

    /// The race of Racing Kings: `Some` value for the side to move once it is decided.
    /// White reaching the eighth rank leaves Black one move to follow.
    pub open spec fn race_result(self, ply: usize) -> Option<Value> {
        let white = rank(self.ksq(Color::White)) == 7;
        let black = rank(self.ksq(Color::Black)) == 7;
        match self.stm {
            Color::White => if white && black {
                Some(0i32)
            } else if black {
                Some(mated_in(ply))
            } else if white {
                Some(mate_in(ply))
            } else {
                None
            },
            Color::Black => if black {
                Some(mate_in(ply))
            } else {
                None
            },
        }
    }

    /// Key changes of the opponent's moves over the last `i` plies (odd), taken together.
    pub open spec fn drift(self, i: int) -> u64
        decreases i,
    {
        let n = self.states.len() - 1;
        let step = (self.states[n - i + 1].key ^ self.states[n - i].key) ^ key_side();
        if i <= 1 {
            step
        } else {
            self.drift(i - 2) ^ step
        }
    }

    /// The opponent's moves of the last `i` plies cancel out, and a move of the side to
    /// move over empty squares leads back to that position.
    pub open spec fn can_return(self, c: Cuckoo, i: int) -> bool {
        let n = self.states.len() - 1;
        &&& self.drift(i) == 0
        &&& c.found(self.states[n].key ^ self.states[n - i].key) matches Some(m) && clear(
            m.from(),
            m.to(),
            occ(self.board),
        )
    }

    /// A reversible move recreates an earlier position: one inside the search tree, or one
    /// that has itself occurred before.
    pub open spec fn can_repeat(self, c: Cuckoo, ply: int) -> bool {
        exists|i: int|
            3 <= i <= reversible_plies(self.st()) && i % 2 == 1 && #[trigger] self.can_return(c, i)
                && (ply > i || self.states[self.states.len() - 1 - i].repetition != 0)
    }
}

impl Position {
    /// Racing Kings: `Some(value)` from the side to move's perspective if the race is
    /// decided.
    pub fn racing_kings_result(&self, ply: usize) -> (r: Option<Value>)
        requires
            self.wf(),
            self@.variant.royal_king(),
            ply <= 32000,
        ensures
            r == self@.race_result(ply),
    {
        proof {
            assert(one_king(self@.board, Color::White));
            assert(one_king(self@.board, Color::Black));
        }
        let white = rank_of(self.king_square(Color::White)) == 7;
        let black = rank_of(self.king_square(Color::Black)) == 7;
        match self.side_to_move {
            Color::White => {
                if white && black {
                    Some(VALUE_DRAW)
                } else if black {
                    Some(mated_in(ply))
                } else if white {
                    Some(mate_in(ply))
                } else {
                    None
                }
            },
            Color::Black => {
                if black {
                    Some(mate_in(ply))
                } else {
                    None
                }
            },
        }
    }

    /// Whether there is a legal move.
    pub fn has_legal_moves(&self) -> (r: bool)
        requires
            self.wf(),
        ensures
            r == self@.can_move(),
            self@.sound() ==> r == exists|m: Move| #[trigger] self@.legal(m),
    {
        let mut list = MoveList::new();
        generate_legal(self, &mut list);
        let ghost l = list@;
        let ghost v = self@;
        proof {
            lemma_adds_contains(l, tested(v));
            if l.len() > 0 {
                assert(l.contains(l[0]));
                assert(tested(v).contains(l[0]));
            }
            if v.can_move() {
                let m = choose|m: Move| #[trigger] tested(v).contains(m);
                assert(l.contains(m));
            }
            if v.sound() {
                lemma_adds_contains(l, Set::new(|m: Move| v.legal(m)));
                if l.len() > 0 {
                    assert(Set::new(|m: Move| v.legal(m)).contains(l[0]));
                    assert(v.legal(l[0]));
                }
                if exists|m: Move| #[trigger] v.legal(m) {
                    let m = choose|m: Move| #[trigger] v.legal(m);
                    assert(Set::new(|x: Move| v.legal(x)).contains(m));
                    assert(l.contains(m));
                }
            }
        }
        !list.is_empty()
    }

    /// A repetition strictly inside the search tree, or any threefold.
    pub fn is_repetition(&self, ply: usize) -> (r: bool)
        requires
            self.wf(),
            ply <= i32::MAX,
        ensures
            r == self@.repeated_within(ply as int),
    {
        let n = self.state().repetition;
        n != 0 && n < ply as i32
    }

    /// Draw by the fifty-move rule (unless it is checkmate) or by repetition.
    pub fn is_draw(&self, ply: usize) -> (r: bool)
        requires
            self.wf(),
            ply <= i32::MAX,
        ensures
            r == (self@.fifty_moves() || self@.repeated_within(ply as int)),
            self@.st().rule50 < 100 && self@.st().repetition == 0 ==> !r,
            self@.st().rule50 >= 100 && (self@.st().checkers == 0 || self@.can_move()) ==> r,
    {
        if self.rule50_count() > 99 && (!self.in_check() || self.has_legal_moves()) {
            return true;
        }
        self.is_repetition(ply)
    }

    /// Whether any position since the last irreversible move has occurred before.
    pub fn has_repeated(&self) -> (r: bool)
        requires
            self.wf(),
        ensures
            r == self@.repeated_since(),
    {
        let a = self.rule50_count();
        let b = self.plies_from_null();
        let end: i32 = if a <= b {
            a
        } else {
            b
        };
        let ghost v = self@;
        let n: usize = self.states.len() - 1;
        let mut left: i32 = end;
        let mut back: usize = 0;
        while left >= 4
            invariant
                self.wf(),
                v == self@,
                n == v.states.len() - 1,
                end == reversible_plies(v.st()),
                left + back == end || (left == end && back == 0),
                end <= n,
                forall|k: int|
                    0 <= k < back ==> (#[trigger] v.states[v.states.len() - 1 - k]).repetition == 0,
            decreases left,
        {
            if self.states[n - back].repetition != 0 {
                proof {
                    assert(v.states[v.states.len() - 1 - back].repetition != 0);
                }
                return true;
            }
            back += 1;
            left -= 1;
        }
        false
    }

    /// Positions no side can ever win: bare kings, a single minor, or bishops all on
    /// one square colour with no pawns.
    pub fn is_insufficient_material(&self) -> (r: bool)
        requires
            self.wf(),
        ensures
            r == self@.insufficient(),
    {
        let ghost b = self@.board;
        if !self.material_draws_apply() {
            return false;
        }
        let heavy = self.pieces_p(PieceType::Pawn) | self.pieces_p(PieceType::Rook)
            | self.pieces_p(PieceType::Queen);
        if heavy != 0 {
            proof {
                lemma_lowest(heavy);
                let s = lowest(heavy);
                assert(holds(heavy, s));
                assert(b[s].0 < 12);
            }
            return false;
        }
        proof {
            assert forall|s: int| on_board(s) && (#[trigger] b[s]).0 < 12 implies b[s].piece_type()
                == PieceType::King || minor_on(b, s) by {
                lemma_empty(heavy);
                assert(!holds(heavy, s));
            }
        }
        let knights = self.pieces_p(PieceType::Knight);
        let bishops = self.pieces_p(PieceType::Bishop);
        let minors = knights | bishops;
        proof {
            assert forall|s: int| #[trigger] minor_on(b, s) <==> holds(minors, s) by {}
        }
        if !more_than_one(minors) {
            proof {
                assert forall|s: int, t: int| #[trigger]
                    minor_on(b, s) && #[trigger] minor_on(b, t) implies s == t by {
                    assert(holds(minors, s) && holds(minors, t));
                }
            }
            return true;
        }
        proof {
            let (s, t) = choose|s: int, t: int|
                s != t && #[trigger] holds(minors, s) && #[trigger] holds(minors, t);
            assert(minor_on(b, s) && minor_on(b, t));
        }
        if knights == 0 {
            let light = bishops & LIGHT_SQUARES;
            let dark = bishops & DARK_SQUARES;
            proof {
                assert forall|s: int| #[trigger] minor_on(b, s) implies b[s].piece_type()
                    == PieceType::Bishop && holds(bishops, s) by {
                    lemma_empty(knights);
                    assert(!holds(knights, s));
                }
                assert forall|s: int| #[trigger] minor_on(b, s) implies (holds(light, s)
                    <==> square_color(s) == 1) && (holds(dark, s) <==> square_color(s) == 0) by {
                    lemma_masks(s);
                }
                if light == 0 {
                    assert forall|s: int| #[trigger] minor_on(b, s) implies square_color(s)
                        == 0 by {
                        lemma_empty(light);
                        assert(!holds(light, s));
                    }
                } else {
                    lemma_lowest(light);
                    assert(holds(light, lowest(light)));
                    assert(minor_on(b, lowest(light)));
                }
                if dark == 0 {
                    assert forall|s: int| #[trigger] minor_on(b, s) implies square_color(s)
                        == 1 by {
                        lemma_empty(dark);
                        assert(!holds(dark, s));
                    }
                } else {
                    lemma_lowest(dark);
                    assert(holds(dark, lowest(dark)));
                    assert(minor_on(b, lowest(dark)));
                }
            }
            return light == 0 || dark == 0;
        }
        proof {
            lemma_lowest(knights);
            assert(holds(knights, lowest(knights)));
            assert(minor_on(b, lowest(knights)));
        }
        false
    }

    /// Whether a reversible move by the side to move recreates an earlier position.
    pub fn upcoming_repetition(&self, ply: usize, cuckoo: &Cuckoo) -> (r: bool)
        requires
            self.wf(),
            cuckoo.wf(),
        ensures
            r == self@.can_repeat(*cuckoo, ply as int),
    {
        let a = self.rule50_count();
        let b = self.plies_from_null();
        let end: i32 = if a <= b {
            a
        } else {
            b
        };
        if end < 3 {
            return false;
        }
        let ghost v = self@;
        let n: usize = self.states.len() - 1;
        let side = self.keys.side;
        let original_key = self.states[n].key;
        let mut other = (original_key ^ self.states[n - 1].key) ^ side;
        let occupied = self.pieces();
        let mut i: i32 = 3;
        while i <= end
            invariant
                self.wf(),
                cuckoo.wf(),
                v == self@,
                n == v.states.len() - 1,
                end == reversible_plies(v.st()),
                3 <= i <= end + 2,
                end <= n,
                i % 2 == 1,
                side == key_side(),
                original_key == v.states[n as int].key,
                occupied == occ(v.board),
                other == v.drift(i - 2),
                forall|k: int|
                    3 <= k < i && k % 2 == 1 ==> !(#[trigger] v.can_return(*cuckoo, k) && (ply > k
                        || v.states[v.states.len() - 1 - k].repetition != 0)),
            decreases end + 2 - i,
        {
            let stp: usize = n - i as usize;
            other = other ^ ((self.states[stp + 1].key ^ self.states[stp].key) ^ side);
            proof {
                assert(other == v.drift(i as int));
            }
            if other == 0 {
                let move_key = original_key ^ self.states[stp].key;
                if let Some(mv) = cuckoo.probe(move_key) {
                    let s1 = mv.from_sq();
                    let s2 = mv.to_sq();
                    let path = (between_bb(s1, s2) ^ sq_bb(s2)) & occupied;
                    proof {
                        if path == 0 {
                            assert forall|x: int| crate::geometry::between(
                                s1 as int,
                                s2 as int,
                                x,
                            ) implies !holds(occupied, x) by {
                                lemma_empty(path);
                                assert(!holds(path, x));
                            }
                        } else {
                            lemma_lowest(path);
                            assert(holds(path, lowest(path)));
                        }
                    }
                    if path == 0 {
                        proof {
                            assert(v.can_return(*cuckoo, i as int));
                        }
                        if ply > i as usize {
                            return true;
                        }
                        if self.states[stp].repetition != 0 {
                            return true;
                        }
                    }
                }
            }
            if i > end - 2 {
                return false;
            }
            i += 2;
        }
        false
    }
}

} // verus!
