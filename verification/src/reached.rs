//! Games of legal moves: the positions reached can be written as FEN text, and the position
//! read from the text has everything that is recorded of them.

use vstd::prelude::*;

use crate::bits::{group_has, holds, lemma_ext, size};
use crate::fen::describes;
use crate::fenlaw::{
    castling_writable, moves_keep_variant_state, outermost, ply_fits,
    read_positions_have_variant_state, read_positions_keep_their_evaluation,
    read_positions_keep_their_key, written_positions_read_back,
};
use crate::fenspec::{parse, FenError, Setup};
use crate::keys::variant_key;
use crate::makemove::{lemma_rights_after, pieces_move_to_the_foreseen_key};
use crate::network::Network;
use crate::nnue::{network_value, NnueState};
use crate::notation::fen_text;
use crate::play::{legal_moves_can_be_made, legal_moves_keep_playable};
use crate::rules::{is_king_square, lemma_one_king, occ, pawn, right_color, single_right, PosView};
use crate::types::{relative_rank, relative_square, Color, Move};
use crate::variant::Variant;

verus! {

broadcast use group_has;

impl PosView {
    /// `w` is the position held after `m` was played.
    pub open spec fn plays(self, m: Move, w: PosView) -> bool {
        &&& self.legal(m)
        &&& self.made(m, self.check_test(m), w)
        &&& w.wf()
        &&& self.keys_match() && self.marks_ok() ==> w.keys_match() && w.marks_ok()
    }

    /// Outside Chess960 the rooks that may castle stand in the corners.
    pub open spec fn rooks_cornered(self) -> bool {
        forall|cr: u8|
            single_right(cr) && #[trigger] self.has_right(cr) ==> self.chess960 || in_corner(
                right_color(cr),
                self.rooks[cr as int] as int,
            )
    }

    /// A position of a game that a FEN text tells in full: it can be played on from, its keys
    /// are those of the board, plies count from the start of the game, and its castling
    /// rights can be written.
    pub open spec fn recordable(self) -> bool {
        &&& self.playable()
        &&& self.keys_match()
        &&& self.rooks_cornered()
        &&& self.variant_state_ok()
        &&& ply_fits(self)
        &&& self.chess960 == (self.variant == Variant::Chess960)
    }
}

pub open spec fn in_corner(c: Color, r: int) -> bool {
    let first = relative_square(c, 0) as int;
    r == first || r == first + 7
}

/// The moves of a game, each legal where it is played, with the positions between them.
pub open spec fn game(path: Seq<PosView>, moves: Seq<Move>) -> bool {
    &&& path.len() == moves.len() + 1
    &&& forall|i: int|
        0 <= i < moves.len() ==> (#[trigger] path[i]).plays(moves[i], path[i + 1])
}

/// Rooks in the corners are the outermost ones.
proof fn lemma_cornered(v: PosView)
    requires
        v.playable(),
        v.rooks_cornered(),
    ensures
        castling_writable(v),
{
    assert forall|cr: u8| single_right(cr) && #[trigger] v.has_right(cr) implies {
        let c = right_color(cr);
        let r = v.rooks[cr as int] as int;
        &&& relative_rank(c, v.ksq(c) as u8) == 0
        &&& relative_rank(c, r as u8) == 0
        &&& v.chess960 || outermost(v.board, c, v.ksq(c), r)
    } by {
        if !v.variant.castling_allowed() {
            assert(0u8 & cr == 0) by (bit_vector);
        }
        assert(v.right_ok(cr));
        let c = right_color(cr);
        let r = v.rooks[cr as int] as int;
        let k = v.ksq(c);
        lemma_one_king(v.board, c);
        assert(is_king_square(v.board, c, k));
        assert(k != r);
    }
}

/// A legal move of a recordable position leads to one.
pub proof fn moves_keep_recordable(v: PosView, m: Move, w: PosView)
    requires
        v.recordable(),
        v.room(1),
        v.plays(m, w),
    ensures
        w.recordable(),
        forall|n: int| n >= 1 && #[trigger] v.room(n) ==> w.room(n - 1),
{
    legal_moves_can_be_made(v, m);
    legal_moves_keep_playable(v, m, w);
    moves_keep_variant_state(v, m, v.check_test(m), w);
    assert forall|cr: u8| single_right(cr) && #[trigger] w.has_right(cr) implies w.chess960
        || in_corner(right_color(cr), w.rooks[cr as int] as int) by {
        if !w.variant.castling_allowed() {
            assert(0u8 & cr == 0) by (bit_vector);
        }
        lemma_rights_after(v, m, w, cr);
        assert(v.has_right(cr));
    }
}

/// Every position of a game that began with a recordable one is recordable: playable, with
/// keys that match the board, marks on promoted pieces only, castling rights that a text can
/// tell, and no state of another variant.
pub proof fn reached_positions_are_recordable(path: Seq<PosView>, moves: Seq<Move>)
    requires
        game(path, moves),
        path[0].recordable(),
        path[0].room(moves.len() as int),
    ensures
        path.last().recordable(),
        path.last().wf(),
        path.last().marks_ok(),
        castling_writable(path.last()),
    decreases moves.len(),
{
    if moves.len() > 0 {
        let (v, w) = (path[0], path[1]);
        assert(v.plays(moves[0], w));
        assert(v.room(1));
        moves_keep_recordable(v, moves[0], w);
        assert(w.room(moves.len() - 1));
        let rest = path.skip(1);
        let left = moves.skip(1);
        assert forall|i: int| 0 <= i < left.len() implies (#[trigger] rest[i]).plays(
            left[i],
            rest[i + 1],
        ) by {
            assert(path[i + 1].plays(moves[i + 1], path[i + 2]));
        }
        reached_positions_are_recordable(rest, left);
        assert(rest.last() == path.last());
    } else {
        lemma_cornered(path[0]);
    }
}

/// A position read from a text is recordable where it can be played on from and its castling
/// rooks stand in the corners.
pub proof fn read_positions_are_recordable(t: Seq<char>, variant: Variant, s: Setup, w: PosView)
    requires
        parse(t, variant) == Ok::<Setup, FenError>(s),
        describes(s, variant, w),
        w.playable(),
        w.rooks_cornered(),
    ensures
        w.recordable(),
{
    read_positions_have_variant_state(t, variant, s, w);
}

/// The position read from the text of a recordable one has everything that is recorded of
/// it: the board, the side to move, the ply, the castling rights and their rooks, the en
/// passant square, clocks, checks, pockets and marks, all keys, the checkers, pins, checking
/// squares and whether a capture is forced.
pub proof fn recorded_state_reads_back(v: PosView, s: Setup, w: PosView)
    requires
        v.recordable(),
        parse(fen_text(v), v.variant) == Ok::<Setup, FenError>(s),
        describes(s, v.variant, w),
        w.wf(),
    ensures
        w.board == v.board,
        w.stm == v.stm,
        w.game_ply == v.game_ply,
        w.variant == v.variant,
        w.chess960 == v.chess960,
        w.st().castling_rights == v.st().castling_rights,
        forall|cr: u8|
            single_right(cr) && #[trigger] v.has_right(cr) ==> w.rooks[cr as int]
                == v.rooks[cr as int],
        w.st().ep_square == v.st().ep_square,
        w.st().rule50 == v.st().rule50,
        w.st().checks_given@ == v.st().checks_given@,
        forall|c: int, p: int|
            0 <= c < 2 && 0 <= p < 5 ==> #[trigger] w.st().hand@[c]@[p] == v.st().hand@[c]@[p],
        w.st().promoted == v.st().promoted,
        w.st().key == v.st().key,
        w.st().pawn_key == v.st().pawn_key,
        w.st().material_key == v.st().material_key,
        v.variant.royal_king() ==> w.st().minor_key == v.st().minor_key,
        w.st().nonpawn_key@ == v.st().nonpawn_key@,
        w.st().checkers == v.st().checkers,
        w.st().blockers_for_king@ == v.st().blockers_for_king@,
        w.st().pinners@ == v.st().pinners@,
        w.st().check_squares@ == v.st().check_squares@,
        w.st().must_capture == v.st().must_capture,
{
    lemma_cornered(v);
    written_positions_read_back(v);
    read_positions_keep_their_key(v, s, w);
    lemma_same_info(v, w);
    assert(w.st().nonpawn_key@ =~= v.st().nonpawn_key@);
}

/// The board, the side to move and the en passant square tell checkers, pins, checking
/// squares and forced captures.
proof fn lemma_same_info(v: PosView, w: PosView)
    requires
        v.sound(),
        w.wf(),
        w.board == v.board,
        w.stm == v.stm,
        w.variant == v.variant,
        w.st().ep_square == v.st().ep_square,
        if w.variant.royal_king() {
            w.checkers_exact(w.st().checkers)
        } else {
            w.st().checkers == 0
        },
    ensures
        w.st().checkers == v.st().checkers,
        w.st().blockers_for_king@ == v.st().blockers_for_king@,
        w.st().pinners@ == v.st().pinners@,
        w.st().check_squares@ == v.st().check_squares@,
        w.st().must_capture == v.st().must_capture,
{
    let (a, b) = (v.st(), w.st());
    if v.variant.royal_king() {
        assert forall|x: int| 0 <= x < 64 implies holds(b.checkers, x) == holds(a.checkers, x) by {}
        lemma_ext(b.checkers, a.checkers);
        assert forall|i: int| 0 <= i < 2 implies b.blockers_for_king@[i]
            == a.blockers_for_king@[i] by {
            assert forall|x: int| 0 <= x < 64 implies holds(b.blockers_for_king@[i], x) == holds(
                a.blockers_for_king@[i],
                x,
            ) by {
                assert(i == 0 || i == 1);
            }
            lemma_ext(b.blockers_for_king@[i], a.blockers_for_king@[i]);
        }
        assert forall|i: int| 0 <= i < 2 implies b.pinners@[i] == a.pinners@[i] by {
            assert forall|x: int| 0 <= x < 64 implies holds(b.pinners@[i], x) == holds(
                a.pinners@[i],
                x,
            ) by {
                assert(i == 0 || i == 1);
            }
            lemma_ext(b.pinners@[i], a.pinners@[i]);
        }
        assert forall|i: int| 0 <= i < 6 implies b.check_squares@[i] == a.check_squares@[i] by {
            if i < 5 {
                assert forall|x: int| 0 <= x < 64 implies holds(b.check_squares@[i], x) == holds(
                    a.check_squares@[i],
                    x,
                ) by {
                    assert(i == 0 || i == 1 || i == 2 || i == 3 || i == 4);
                }
                lemma_ext(b.check_squares@[i], a.check_squares@[i]);
            }
        }
    } else {
        if v.can_capture() {
            let (x, t) = choose|x: int, t: int| #[trigger] v.captures(x, t);
            assert(w.captures(x, t));
        }
        if w.can_capture() {
            let (x, t) = choose|x: int, t: int| #[trigger] w.captures(x, t);
            assert(v.captures(x, t));
        }
        assert forall|i: int| 0 <= i < 6 implies b.check_squares@[i] == a.check_squares@[i] by {
            assert(b.check_squares@[i] == 0 && a.check_squares@[i] == 0);
        }
    }
    assert(b.blockers_for_king@ =~= a.blockers_for_king@);
    assert(b.pinners@ =~= a.pinners@);
    assert(b.check_squares@ =~= a.check_squares@);
}

/// A position reached by legal moves and written as FEN text is read back with everything
/// that is recorded of it.
pub proof fn reached_positions_read_back(
    path: Seq<PosView>,
    moves: Seq<Move>,
    s: Setup,
    w: PosView,
)
    requires
        game(path, moves),
        path[0].recordable(),
        path[0].room(moves.len() as int),
        parse(fen_text(path.last()), path.last().variant) == Ok::<Setup, FenError>(s),
        describes(s, path.last().variant, w),
        w.wf(),
    ensures
        ({
            let v = path.last();
            &&& w.board == v.board && w.stm == v.stm && w.game_ply == v.game_ply
            &&& w.st().castling_rights == v.st().castling_rights
            &&& w.st().ep_square == v.st().ep_square
            &&& w.st().rule50 == v.st().rule50
            &&& w.st().promoted == v.st().promoted
            &&& w.st().key == v.st().key
            &&& w.st().pawn_key == v.st().pawn_key
            &&& w.st().material_key == v.st().material_key
            &&& v.variant.royal_king() ==> w.st().minor_key == v.st().minor_key
            &&& w.st().nonpawn_key@ == v.st().nonpawn_key@
            &&& w.st().checkers == v.st().checkers
            &&& w.st().blockers_for_king@ == v.st().blockers_for_king@
            &&& w.st().pinners@ == v.st().pinners@
            &&& w.st().check_squares@ == v.st().check_squares@
            &&& w.st().must_capture == v.st().must_capture
        }),
{
    reached_positions_are_recordable(path, moves);
    recorded_state_reads_back(path.last(), s, w);
}

/// The text of a position reached by legal moves can be read.
pub proof fn reached_positions_can_be_read(path: Seq<PosView>, moves: Seq<Move>)
    requires
        game(path, moves),
        path[0].recordable(),
        path[0].room(moves.len() as int),
    ensures
        parse(fen_text(path.last()), path.last().variant) is Ok,
{
    reached_positions_are_recordable(path, moves);
    written_positions_read_back(path.last());
}

/// A position reached by legal moves is evaluated as the one read from its text: `a` is the
/// network's state of the game, `b` one of the position read.
pub proof fn reached_positions_keep_their_evaluation(
    path: Seq<PosView>,
    moves: Seq<Move>,
    s: Setup,
    w: PosView,
    net: &Network,
    a: &NnueState,
    b: &NnueState,
)
    requires
        game(path, moves),
        path[0].recordable(),
        path[0].room(moves.len() as int),
        parse(fen_text(path.last()), path.last().variant) == Ok::<Setup, FenError>(s),
        describes(s, path.last().variant, w),
        a.wf(net),
        b.wf(net),
        a.stack@.last().snap.board@ == path.last().board,
        b.stack@.last().snap.board@ == w.board,
        a.stack@.last().snap.kings@ == b.stack@.last().snap.kings@,
    ensures
        w.evaluation(
            network_value(
                net,
                b.stack@.last().snap,
                w.stm,
                size(occ(w.board)) as i32,
            ) as int,
        ) == path.last().evaluation(
            network_value(
                net,
                a.stack@.last().snap,
                path.last().stm,
                size(occ(path.last().board)) as i32,
            ) as int,
        ),
{
    reached_positions_are_recordable(path, moves);
    read_positions_keep_their_evaluation(path.last(), s, w, net, a, b);
}

/// In a game of legal moves the key after the next one is the foreseen key, wherever a piece
/// other than a pawn moves without castling and nothing but the board, the turn and the en
/// passant square changes.
pub proof fn reached_positions_have_the_foreseen_key(
    path: Seq<PosView>,
    moves: Seq<Move>,
    m: Move,
    w: PosView,
)
    requires
        game(path, moves),
        path[0].recordable(),
        path[0].room(moves.len() as int + 1),
        path.last().plays(m, w),
        !m.is_drop(),
        !m.is_castling(),
        path.last().board[m.from()] != pawn(path.last().stm),
        w.st().castling_rights == path.last().st().castling_rights,
        variant_key(w.st()) == variant_key(path.last().st()),
    ensures
        w.st().key == path.last().foreseen_key(m),
{
    let v = path.last();
    lemma_room_left(path, moves, 1);
    reached_positions_are_recordable(path, moves);
    legal_moves_can_be_made(v, m);
    pieces_move_to_the_foreseen_key(v, m, v.check_test(m), w);
}

proof fn lemma_room_left(path: Seq<PosView>, moves: Seq<Move>, n: int)
    requires
        game(path, moves),
        n >= 0,
        path[0].room(moves.len() + n),
    ensures
        path[0].room(moves.len() as int),
        path.last().room(n),
    decreases moves.len(),
{
    if moves.len() > 0 {
        assert(path[0].plays(moves[0], path[1]));
        let rest = path.skip(1);
        let left = moves.skip(1);
        assert forall|i: int| 0 <= i < left.len() implies (#[trigger] rest[i]).plays(
            left[i],
            rest[i + 1],
        ) by {
            assert(path[i + 1].plays(moves[i + 1], path[i + 2]));
        }
        lemma_room_left(rest, left, n);
        assert(rest.last() == path.last());
    }
}

} // verus!
