//! Lines of moves: which can be played from a position.

use vstd::prelude::*;

use crate::perft::{lemma_same_legal, lemma_same_successor, same_game};
use crate::rules::PosView;
use crate::types::Move;

verus! {

/// Every move of the line is legal where it is played.
pub open spec fn playable_line(v: PosView, s: Seq<Move>) -> bool
    decreases s.len(),
{
    s.len() == 0 || (v.legal(s[0]) && playable_line(v.successor(s[0]), s.skip(1)))
}

/// Whether a line can be played depends only on the game.
pub proof fn lemma_same_line(v: PosView, w: PosView, s: Seq<Move>)
    requires
        same_game(v, w),
    ensures
        playable_line(v, s) == playable_line(w, s),
    decreases s.len(),
{
    if s.len() > 0 {
        lemma_same_legal(v, w, s[0]);
        lemma_same_successor(v, w, s[0]);
        lemma_same_line(v.successor(s[0]), w.successor(s[0]), s.skip(1));
    }
}

/// A legal move before a line that can be played after it.
pub proof fn lemma_line_before(v: PosView, w: PosView, m: Move, s: Seq<Move>)
    requires
        v.legal(m),
        same_game(w, v.successor(m)),
        playable_line(w, s),
    ensures
        playable_line(v, seq![m] + s),
{
    let t = seq![m] + s;
    assert(t[0] == m);
    assert(t.skip(1) =~= s);
    lemma_same_line(w, v.successor(m), s);
}

} // verus!
