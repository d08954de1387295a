//! What the vote among threads and the choice at reduced strength are for: better and deeper
//! results weigh more, a proven win is taken, a proven loss is left, and weaker play gives
//! more away.

use vstd::prelude::*;

use crate::outcome::{
    ballots, chosen, countable, expected_reply, lowest_score, node_sum, outvotes, picked, pushed,
    random_after, root_index, spread, vote, vote_winner, voters, votes, votes_at_all, weakness,
    ThreadResult,
};
use crate::searcher::{RootMove, Searcher};
use crate::types::{is_decisive, is_loss, is_win, Move, Value, VALUE_INFINITE};

verus! {

/// The lowest score is one of the scores, and none lies below it.
pub proof fn the_lowest_score_is_a_score(s: Seq<ThreadResult>, n: nat)
    requires
        0 < n <= s.len(),
    ensures
        forall|i: int| 0 <= i < n ==> lowest_score(s, n) <= (#[trigger] s[i]).score,
        exists|i: int| 0 <= i < n && (#[trigger] s[i]).score == lowest_score(s, n),
    decreases n,
{
    if n == 1 {
        assert(s[0].score == lowest_score(s, n));
    } else {
        the_lowest_score_is_a_score(s, (n - 1) as nat);
        let i = choose|i: int|
            0 <= i < n - 1 && (#[trigger] s[i]).score == lowest_score(s, (n - 1) as nat);
        if s[n - 1].score < lowest_score(s, (n - 1) as nat) {
            assert(s[n - 1].score == lowest_score(s, n));
        } else {
            assert(s[i].score == lowest_score(s, n));
        }
    }
}

/// Of two threads searched equally deep the better score has the heavier vote, by the
/// difference of the scores for every ply searched.
pub proof fn better_scores_weigh_more(s: Seq<ThreadResult>, i: int, j: int)
    requires
        0 <= i < s.len(),
        0 <= j < s.len(),
        0 <= s[i].completed_depth == s[j].completed_depth,
    ensures
        vote(s, i) - vote(s, j) == (s[i].score - s[j].score) * s[i].completed_depth,
        s[i].score >= s[j].score ==> vote(s, i) >= vote(s, j),
        s[i].score > s[j].score && s[i].completed_depth > 0 ==> vote(s, i) > vote(s, j),
{
    let (x, y, d) = (s[i].score as int, s[j].score as int, s[i].completed_depth as int);
    let low = lowest_score(s, s.len());
    assert((x - low + 14) * d - (y - low + 14) * d == (x - y) * d) by (nonlinear_arith);
    assert(x >= y && d >= 0 ==> (x - y) * d >= 0) by (nonlinear_arith);
    assert(x > y && d > 0 ==> (x - y) * d > 0) by (nonlinear_arith);
}

/// Of two threads with one score the deeper has the heavier vote; the thread with the lowest
/// score still votes, with fourteen for every ply.
pub proof fn deeper_searches_weigh_more(s: Seq<ThreadResult>, i: int, j: int)
    requires
        0 <= i < s.len(),
        0 <= j < s.len(),
        s[i].score == s[j].score,
        s[i].completed_depth >= s[j].completed_depth >= 0,
    ensures
        vote(s, i) >= vote(s, j) >= 0,
        s[i].completed_depth > s[j].completed_depth ==> vote(s, i) > vote(s, j),
        (forall|k: int| 0 <= k < s.len() ==> s[i].score <= (#[trigger] s[k]).score) ==> vote(s, i)
            == 14 * s[i].completed_depth,
{
    the_lowest_score_is_a_score(s, s.len());
    let low = lowest_score(s, s.len());
    let a = s[i].score - low + 14;
    let (d, e) = (s[i].completed_depth as int, s[j].completed_depth as int);
    assert(s[i].score >= low);
    assert(a * d >= a * e >= 0) by (nonlinear_arith)
        requires
            a >= 14,
            d >= e >= 0,
    ;
    assert(d > e ==> a * d > a * e) by (nonlinear_arith)
        requires
            a >= 14,
    ;
}

/// A thread's score may rise and its own vote does not fall, whatever the others found.
pub proof fn a_rising_score_keeps_its_weight(s: Seq<ThreadResult>, i: int, score: Value)
    requires
        0 <= i < s.len(),
        s[i].completed_depth >= 0,
        score >= s[i].score,
    ensures
        vote(s.update(i, ThreadResult { score, ..s[i] }), i) >= vote(s, i),
{
    let t = s.update(i, ThreadResult { score, ..s[i] });
    let n = s.len();
    the_lowest_score_is_a_score(s, n);
    the_lowest_score_is_a_score(t, n);
    let (low, high) = (lowest_score(s, n), lowest_score(t, n));
    let k = choose|k: int| 0 <= k < n && (#[trigger] s[k]).score == low;
    assert(t[k].score >= high);
    assert(t[i].score >= high);
    let d = s[i].completed_depth as int;
    // The lowest score rises by no more than the thread's own.
    assert(score - high >= s[i].score - low) by {
        if k != i {
            assert(t[k].score == low);
        }
    }
    let (a, b) = (score - high + 14, s[i].score - low + 14);
    assert(a * d >= b * d) by (nonlinear_arith)
        requires
            a >= b,
            d >= 0,
    ;
}

/// A move that one thread alone chose has that thread's vote.
pub proof fn a_lone_move_has_its_own_vote(s: Seq<ThreadResult>, i: int, n: nat)
    requires
        0 <= i < s.len(),
        n <= s.len(),
        forall|k: int| 0 <= k < s.len() && k != i ==> (#[trigger] s[k]).best_move != s[i].best_move,
    ensures
        votes(s, s[i].best_move, n) == (if i < n {
            vote(s, i)
        } else {
            0
        }),
    decreases n,
{
    if n > 0 {
        a_lone_move_has_its_own_vote(s, i, (n - 1) as nat);
    }
}

/// Every thread that chose a move adds to its votes.
pub proof fn agreement_adds_up(s: Seq<ThreadResult>, m: Move, i: int, n: nat)
    requires
        countable(s),
        0 <= i < n <= s.len(),
        s[i].best_move == m,
    ensures
        votes(s, m, n) >= vote(s, i),
    decreases n,
{
    deeper_searches_weigh_more(s, n - 1, n - 1);
    lemma_votes_positive(s, m, (n - 1) as nat);
    if i < n - 1 {
        agreement_adds_up(s, m, i, (n - 1) as nat);
    }
}

proof fn lemma_votes_positive(s: Seq<ThreadResult>, m: Move, n: nat)
    requires
        countable(s),
        n <= s.len(),
    ensures
        votes(s, m, n) >= 0,
    decreases n,
{
    if n > 0 {
        lemma_votes_positive(s, m, (n - 1) as nat);
        deeper_searches_weigh_more(s, n - 1, n - 1);
    }
}

/// Where no score is decisive the selected move has the most votes.
pub proof fn the_selected_move_has_most_votes(s: Seq<ThreadResult>, n: nat)
    requires
        0 < n <= s.len(),
        forall|i: int| 0 <= i < s.len() ==> !is_decisive((#[trigger] s[i]).score),
    ensures
        0 <= chosen(s, n) < n,
        forall|i: int|
            0 <= i < n ==> votes(s, (#[trigger] s[i]).best_move, s.len()) <= votes(
                s,
                s[chosen(s, n)].best_move,
                s.len(),
            ),
    decreases n,
{
    if n > 1 {
        the_selected_move_has_most_votes(s, (n - 1) as nat);
    }
    assert(!is_decisive(s[n - 1].score));
    let b = chosen(s, (n - 1) as nat);
    assert(!is_decisive(s[b].score));
}

/// Among threads searched equally deep, each with a move of its own and no score decisive,
/// the best score is selected.
pub proof fn the_best_score_is_selected(s: Seq<ThreadResult>)
    requires
        s.len() > 0,
        forall|i: int|
            0 <= i < s.len() ==> !is_decisive((#[trigger] s[i]).score) && s[i].completed_depth
                == s[0].completed_depth && s[i].completed_depth > 0,
        forall|i: int, k: int|
            0 <= i < k < s.len() ==> (#[trigger] s[i]).best_move != (#[trigger] s[k]).best_move,
    ensures
        forall|i: int|
            0 <= i < s.len() ==> (#[trigger] s[i]).score <= s[chosen(s, s.len())].score,
{
    the_selected_move_has_most_votes(s, s.len());
    let b = chosen(s, s.len());
    assert forall|i: int| 0 <= i < s.len() implies (#[trigger] s[i]).score <= s[b].score by {
        a_lone_move_has_its_own_vote(s, i, s.len());
        a_lone_move_has_its_own_vote(s, b, s.len());
        better_scores_weigh_more(s, i, b);
        assert(votes(s, s[i].best_move, s.len()) <= votes(s, s[b].best_move, s.len()));
        assert(s[i].completed_depth == s[b].completed_depth);
    }
}

/// A proven win is taken, the nearest one.
pub proof fn the_nearest_win_is_selected(s: Seq<ThreadResult>, n: nat, k: int)
    requires
        0 <= k < n <= s.len(),
        is_win(s[k].score),
    ensures
        0 <= chosen(s, n) < n,
        is_win(s[chosen(s, n)].score),
        forall|i: int| 0 <= i < n ==> (#[trigger] s[i]).score <= s[chosen(s, n)].score,
    decreases n,
{
    let b = chosen(s, (n - 1) as nat);
    lemma_chosen(s, n);
    lemma_chosen(s, (n - 1) as nat);
    if exists|x: int| 0 <= x < n - 1 && is_win((#[trigger] s[x]).score) {
        let x = choose|x: int| 0 <= x < n - 1 && is_win((#[trigger] s[x]).score);
        the_nearest_win_is_selected(s, (n - 1) as nat, x);
    } else {
        assert(k == n - 1);
        if n > 1 {
            assert(!is_win(s[b].score));
            assert(outvotes(s, n - 1, b));
        }
    }
}

proof fn lemma_chosen(s: Seq<ThreadResult>, n: nat)
    ensures
        n > 0 ==> 0 <= chosen(s, n) < n,
        n == 0 ==> chosen(s, n) == 0,
    decreases n,
{
    if n > 0 {
        lemma_chosen(s, (n - 1) as nat);
    }
}

/// A proven loss is not selected where another thread found a way out, provided the first
/// thread has a score at all.
pub proof fn a_loss_is_left_for_a_way_out(s: Seq<ThreadResult>, n: nat, k: int)
    requires
        0 <= k < n <= s.len(),
        s[0].score != -VALUE_INFINITE,
        forall|i: int| 0 <= i < s.len() ==> (#[trigger] s[i]).score >= -VALUE_INFINITE,
        !is_loss(s[k].score),
    ensures
        !is_loss(s[chosen(s, n)].score),
    decreases n,
{
    lemma_chosen(s, n);
    lemma_chosen(s, (n - 1) as nat);
    let b = chosen(s, (n - 1) as nat);
    if exists|x: int| 0 <= x < n - 1 && !is_loss((#[trigger] s[x]).score) {
        let x = choose|x: int| 0 <= x < n - 1 && !is_loss((#[trigger] s[x]).score);
        a_loss_is_left_for_a_way_out(s, (n - 1) as nat, x);
    } else {
        assert(k == n - 1);
        if n > 1 {
            assert(is_loss(s[b].score));
            lemma_scored(s, (n - 1) as nat);
            assert(outvotes(s, n - 1, b));
        }
    }
}

/// The choice keeps to threads that have a score.
proof fn lemma_scored(s: Seq<ThreadResult>, n: nat)
    requires
        n <= s.len(),
        s.len() > 0,
        s[0].score != -VALUE_INFINITE,
        forall|i: int| 0 <= i < s.len() ==> (#[trigger] s[i]).score >= -VALUE_INFINITE,
    ensures
        s[chosen(s, n)].score != -VALUE_INFINITE,
    decreases n,
{
    lemma_chosen(s, n);
    if n > 0 {
        lemma_scored(s, (n - 1) as nat);
    }
}

// Reduced strength

/// The line picked counts for no less than any other, each with its own draw of chance.
pub proof fn the_pick_counts_for_most(
    c: Seq<(Move, Value)>,
    n: nat,
    delta: int,
    weak: int,
    seed: u64,
)
    requires
        0 < n <= c.len(),
    ensures
        0 <= picked(c, n, delta, weak, seed) < n,
        ({
            let b = picked(c, n, delta, weak, seed);
            forall|k: int|
                0 <= k < n ==> pushed(
                    (#[trigger] c[k]).1 as int,
                    c[0].1 as int,
                    delta,
                    weak,
                    random_after(seed, (k + 1) as nat),
                ) <= pushed(
                    c[b].1 as int,
                    c[0].1 as int,
                    delta,
                    weak,
                    random_after(seed, (b + 1) as nat),
                )
        }),
    decreases n,
{
    if n > 1 {
        the_pick_counts_for_most(c, (n - 1) as nat, delta, weak, seed);
    }
}

/// A push never counts against a line, and one that trails counts for more the weaker the
/// play.
pub proof fn weaker_play_pushes_more(
    score: int,
    top: int,
    delta: int,
    a: int,
    b: int,
    random: u64,
)
    requires
        score <= top,
        delta >= 0,
        1 <= a <= b,
    ensures
        pushed(score, top, delta, a, random) >= score,
        pushed(score, top, 0, a, random) <= pushed(score, top, 0, b, random),
        pushed(top, top, 0, a, random) == top,
        score < top ==> pushed(score, top, 0, 128 * a, random) >= top,
{
    let gap = top - score;
    let part = random as int % a;
    assert(a * gap + delta * part >= 0) by (nonlinear_arith)
        requires
            a >= 1,
            gap >= 0,
            delta >= 0,
            part >= 0,
    ;
    assert(a * gap <= b * gap) by (nonlinear_arith)
        requires
            a <= b,
            gap >= 0,
    ;
    assert(a * gap >= 0) by (nonlinear_arith)
        requires
            a >= 1,
            gap >= 0,
    ;
    assert(a * gap + 0 * part == a * gap && b * gap + 0 * (random as int % b) == b * gap)
        by (nonlinear_arith);
    let big = 128 * a;
    assert(big * gap >= 128 * gap) by (nonlinear_arith)
        requires
            big == 128 * a,
            a >= 1,
            gap >= 0,
    ;
    assert(big * gap + 0 * (random as int % big) == big * gap) by (nonlinear_arith);
    assert(a * 0 + 0 * part == 0) by (nonlinear_arith);
    assert((a * gap) / 128 <= (b * gap) / 128) by (nonlinear_arith)
        requires
            a * gap <= b * gap,
    ;
    assert((big * gap) / 128 >= gap) by (nonlinear_arith)
        requires
            big * gap >= 128 * gap,
    ;
}

/// Stronger levels are less weak, and the spread of the lines is never more than a pawn.
pub proof fn stronger_levels_are_less_weak(a: i32, b: i32, c: Seq<(Move, Value)>)
    requires
        a <= b,
    ensures
        1 <= weakness(b) <= weakness(a),
        b < 60 && a < b ==> weakness(b) < weakness(a),
        spread(c) <= 100,
        spread(c) <= c[0].1 - c.last().1,
{
}

// The outcome

proof fn lemma_voters_kept(s: Seq<Searcher>, n: nat)
    requires
        n <= s.len(),
    ensures
        forall|k: int|
            0 <= k < voters(s, n).len() ==> 0 <= #[trigger] voters(s, n)[k] < n && votes_at_all(
                s[voters(s, n)[k]],
            ),
        (exists|i: int| 0 <= i < n && votes_at_all(#[trigger] s[i])) ==> voters(s, n).len() > 0,
    decreases n,
{
    if n > 0 {
        lemma_voters_kept(s, (n - 1) as nat);
        let rest = voters(s, (n - 1) as nat);
        assert forall|k: int| 0 <= k < voters(s, n).len() implies 0 <= #[trigger] voters(s, n)[k]
            < n && votes_at_all(s[voters(s, n)[k]]) by {
            if k < rest.len() {
                assert(voters(s, n)[k] == rest[k]);
            }
        }
        if exists|i: int| 0 <= i < n && votes_at_all(#[trigger] s[i]) {
            let i = choose|i: int| 0 <= i < n && votes_at_all(#[trigger] s[i]);
            if i < n - 1 {
                assert(votes_at_all(s[i]));
            }
        }
    }
}

/// The outcome is what one of the threads found, with its own score and depth; only where none
/// found a move is there none.
pub proof fn the_outcome_is_one_threads_own(all: Seq<Searcher>)
    ensures
        (exists|i: int| 0 <= i < all.len() && votes_at_all(#[trigger] all[i])) ==> exists|i: int|
            {
                &&& 0 <= i < all.len()
                &&& votes_at_all(#[trigger] all[i])
                &&& vote_winner(all).best_move == all[i].best_move_root
                &&& vote_winner(all).score == all[i].prev_score
                &&& vote_winner(all).depth == all[i].completed_depth
            },
        (forall|i: int| 0 <= i < all.len() ==> !votes_at_all(#[trigger] all[i])) ==> vote_winner(
            all,
        ).best_move.0 == 0 && vote_winner(all).score == 0,
{
    lemma_voters_kept(all, all.len());
    let who = voters(all, all.len());
    if who.len() > 0 {
        let b = ballots(all);
        assert(b.len() == who.len());
        lemma_chosen_in_range(b, b.len());
        let i = who[chosen(b, b.len())];
        assert(votes_at_all(all[i]));
    }
}

proof fn lemma_chosen_in_range(s: Seq<ThreadResult>, n: nat)
    requires
        1 <= n <= s.len(),
    ensures
        0 <= chosen(s, n) < n,
    decreases n,
{
    if n > 1 {
        lemma_chosen_in_range(s, (n - 1) as nat);
    } else {
        reveal_with_fuel(chosen, 2);
    }
}

/// The nodes of all threads count: no fewer than those of any, and their sum as long as it
/// can be counted.
pub proof fn all_nodes_count(s: Seq<Searcher>, n: nat, i: int)
    requires
        0 <= i < n <= s.len(),
    ensures
        s[i].nodes <= node_sum(s, n) <= u64::MAX,
        node_sum(s, n) < u64::MAX ==> node_sum(s, n) == node_sum(s, (n - 1) as nat) + s[n
            - 1].nodes,
    decreases n,
{
    if i < n - 1 {
        all_nodes_count(s, (n - 1) as nat, i);
    } else {
        lemma_sum_range(s, (n - 1) as nat);
    }
}

proof fn lemma_sum_range(s: Seq<Searcher>, n: nat)
    ensures
        0 <= node_sum(s, n) <= u64::MAX,
    decreases n,
{
    if n > 0 {
        lemma_sum_range(s, (n - 1) as nat);
    }
}

/// The reply expected to a root move is the second of the line that begins with it.
pub proof fn the_reply_follows_the_move(list: Seq<RootMove>, m: Move, i: int, reply: Move)
    requires
        0 <= i < list.len(),
        list[i].mv == m,
        forall|k: int| 0 <= k < list.len() && k != i ==> (#[trigger] list[k]).mv != m,
    ensures
        list[i].pv@.len() >= 2 && list[i].pv@[1] == reply ==> expected_reply(list, m) == reply,
        list[i].pv@.len() < 2 ==> expected_reply(list, m).0 == 0,
{
    lemma_root_index(list, m, i, 0);
}

proof fn lemma_root_index(list: Seq<RootMove>, m: Move, i: int, from: int)
    requires
        0 <= from <= i < list.len(),
        list[i].mv == m,
        forall|k: int| 0 <= k < list.len() && k != i ==> (#[trigger] list[k]).mv != m,
    ensures
        root_index(list, m, from) == i,
    decreases i - from,
{
    if from < i {
        assert(list[from].mv != m);
        lemma_root_index(list, m, i, from + 1);
    }
}

} // verus!
