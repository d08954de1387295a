//! The result of a search: the vote among threads, the choice among lines at reduced
//! strength, and lines prolonged with the table's moves.

use vstd::prelude::*;

use crate::arith::{div_toward_zero, quot};
use crate::journal::Journal;
use crate::legality::legal_test_is_exact;
use crate::lines::{lemma_line_before, playable_line};
use crate::moves::is_canonical;
use crate::perft::{lemma_same_legal, lemma_same_successor, play_move, same_game};
use crate::position::Position;
use crate::rules::PosView;
use crate::rootlist::{lists_move, roots_ok};
use crate::search::probe;
use crate::searcher::{Host, RootMove, Searcher, SCORE_LIMIT};
use crate::timeman::Limits;
use crate::tt::TTData;
use crate::types::{is_loss, is_win, Move, Value, VALUE_DRAW, VALUE_INFINITE};

verus! {

// Lines prolonged with the table's moves

/// Moves at the head of a line that can be played.
pub open spec fn legal_prefix(v: PosView, line: Seq<Move>) -> nat
    decreases line.len(),
{
    if line.len() == 0 || !v.legal(line[0]) {
        0
    } else {
        1 + legal_prefix(v.successor(line[0]), line.skip(1))
    }
}

proof fn lemma_same_prefix(v: PosView, w: PosView, line: Seq<Move>)
    requires
        same_game(v, w),
    ensures
        legal_prefix(v, line) == legal_prefix(w, line),
        legal_prefix(v, line) <= line.len(),
    decreases line.len(),
{
    if line.len() > 0 {
        lemma_same_legal(v, w, line[0]);
        lemma_same_successor(v, w, line[0]);
        lemma_same_prefix(v.successor(line[0]), w.successor(line[0]), line.skip(1));
    }
}

/// Whether a move can be played.
pub fn playable_move(pos: &Position, m: Move) -> (r: bool)
    requires
        pos.wf(),
        pos@.sound(),
    ensures
        r == pos@.legal(m),
{
    proof {
        legal_test_is_exact(pos@, m);
    }
    is_canonical(m) && pos.pseudo_legal(m) && pos.legal(m)
}

fn contains_key(seen: &Vec<u64>, key: u64) -> (r: bool)
    ensures
        r == seen@.contains(key),
{
    let mut i: usize = 0;
    while i < seen.len()
        invariant
            i <= seen@.len(),
            forall|k: int| 0 <= k < i ==> #[trigger] seen@[k] != key,
        decreases seen@.len() - i,
    {
        if seen[i] == key {
            return true;
        }
        i += 1;
    }
    false
}

/// The move with which the table prolongs a line: that of the position's entry, where it can
/// be played and the position has not been reached before.
pub open spec fn continuation(v: PosView, entry: Option<TTData>, seen: Seq<u64>) -> Option<Move> {
    match entry {
        Some(d) => if d.mv.0 != 0 && v.legal(d.mv) && !seen.contains(
            v.st().key,
        ) {
            Some(d.mv)
        } else {
            None
        },
        None => None,
    }
}

/// The move with which the table prolongs a line, given the entry of the position and the
/// keys of the positions reached before.
pub fn table_continuation(pos: &Position, entry: Option<TTData>, seen: &Vec<u64>) -> (r: Option<
    Move,
>)
    requires
        pos.wf(),
        pos@.playable(),
    ensures
        r == continuation(pos@, entry, seen@),
{
    match entry {
        Some(d) => {
            if d.mv.is_some() && !contains_key(seen, pos.key()) && playable_move(pos, d.mv) {
                Some(d.mv)
            } else {
                None
            }
        },
        None => None,
    }
}

/// Adds moves from the table while they can be played and the position is new, up to `room`
/// moves. The position is left as it was.
fn prolong<H: Host>(
    host: &mut H,
    pos: &mut Position,
    room: usize,
    seen: &mut Vec<u64>,
    out: &mut Vec<Move>,
)
    requires
        old(pos).wf(),
        old(pos)@.playable(),
        old(pos)@.room(room as int),
    ensures
        final(pos).wf(),
        final(pos)@ == old(pos)@,
        final(pos).keys == old(pos).keys,
        old(out)@.len() <= final(out)@.len() <= old(out)@.len() + room,
        final(out)@.subrange(0, old(out)@.len() as int) == old(out)@,
        playable_line(
            old(pos)@,
            final(out)@.subrange(old(out)@.len() as int, final(out)@.len() as int),
        ),
    decreases room,
{
    let ghost v = pos@;
    let ghost a = out@;
    let key = pos.key();
    let next = if room == 0 || contains_key(seen, key) {
        None
    } else {
        let mut journal = Journal::new();
        let entry = probe(&mut journal, host, key);
        let next = table_continuation(pos, entry, seen);
        seen.push(key);
        next
    };
    if let Some(m) = next {
        play_move(pos, m);
        let ghost w = pos@;
        proof {
            assert(v.room(room as int));
            assert(w.room(room - 1));
        }
        out.push(m);
        let ghost b = out@;
        prolong(host, pos, room - 1, seen, out);
        pos.unmake_move(m);
        proof {
            let t = out@.subrange(b.len() as int, out@.len() as int);
            lemma_line_before(v, w, m, t);
            assert(out@.subrange(0, b.len() as int)[a.len() as int] == m);
            assert(out@[a.len() as int] == m);
            assert(out@.subrange(a.len() as int, out@.len() as int) =~= seq![m] + t);
            assert forall|i: int| 0 <= i < a.len() implies #[trigger] out@[i] == a[i] by {
                assert(out@.subrange(0, b.len() as int)[i] == b[i]);
            }
            assert(out@.subrange(0, a.len() as int) =~= a);
        }
    } else {
        proof {
            assert(out@.subrange(0, a.len() as int) =~= a);
            assert(out@.subrange(a.len() as int, out@.len() as int).len() == 0);
        }
    }
}

/// What `follow` has gathered, given (`followed`) what it gathered after `line[i]`.
pub open spec fn followed(v: PosView, line: Seq<Move>, i: int, out: Seq<Move>, target: int) -> bool {
    let n = legal_prefix(v, line.skip(i)) as int;
    let t = out.subrange(i, out.len() as int);
    &&& out.len() >= i
    &&& playable_line(v, t)
    &&& n <= t.len()
    &&& t.subrange(0, n) == line.subrange(i, i + n)
    &&& out.len() <= i + n || out.len() <= target
}

proof fn lemma_followed(
    v: PosView,
    w: PosView,
    m: Move,
    line: Seq<Move>,
    i: int,
    a: Seq<Move>,
    out: Seq<Move>,
    target: int,
)
    requires
        0 <= i < line.len(),
        m == line[i],
        v.legal(m),
        same_game(w, v.successor(m)),
        a.len() == i,
        followed(w, line, i + 1, out, target),
        out.subrange(0, i + 1) == a.push(m),
    ensures
        followed(v, line, i, out, target),
        out.subrange(0, i) == a,
{
    let s = line.skip(i);
    assert(s.skip(1) =~= line.skip(i + 1));
    assert(s[0] == m);
    lemma_same_prefix(w, v.successor(m), s.skip(1));
    let n1 = legal_prefix(w, s.skip(1)) as int;
    assert(legal_prefix(v, s) == 1 + n1);
    let t1 = out.subrange(i + 1, out.len() as int);
    let t = out.subrange(i, out.len() as int);
    lemma_line_before(v, w, m, t1);
    assert(out.subrange(0, i + 1)[i] == m);
    assert(t =~= seq![m] + t1);
    assert forall|k: int| 0 <= k < i implies #[trigger] out[k] == a[k] by {
        let head = out.subrange(0, i + 1);
        assert(head[k] == out[k]);
        assert(a.push(m)[k] == a[k]);
    }
    assert(out.subrange(0, i) =~= a);
    assert forall|k: int| 0 <= k < 1 + n1 implies #[trigger] t.subrange(0, 1 + n1)[k]
        == line.subrange(i, i + 1 + n1)[k] by {
        if k > 0 {
            assert(t1.subrange(0, n1)[k - 1] == line.subrange(i + 1, i + 1 + n1)[k - 1]);
        }
    }
    assert(t.subrange(0, 1 + n1) =~= line.subrange(i, i + 1 + n1));
}

/// Follows `line[i..]` as far as it can be played, then prolongs it with the table's moves.
fn follow<H: Host>(
    host: &mut H,
    pos: &mut Position,
    line: &Vec<Move>,
    i: usize,
    target: usize,
    seen: &mut Vec<u64>,
    out: &mut Vec<Move>,
)
    requires
        old(pos).wf(),
        old(pos)@.playable(),
        i <= line@.len(),
        old(out)@.len() == i,
        old(pos)@.room(line@.len() - i + target),
    ensures
        final(pos).wf(),
        final(pos)@ == old(pos)@,
        final(pos).keys == old(pos).keys,
        final(out)@.subrange(0, i as int) == old(out)@,
        followed(old(pos)@, line@, i as int, final(out)@, target as int),
    decreases line@.len() - i,
{
    let ghost v = pos@;
    let ghost a = out@;
    if i < line.len() && playable_move(pos, line[i]) {
        let m = line[i];
        seen.push(pos.key());
        play_move(pos, m);
        let ghost w = pos@;
        proof {
            assert(v.room(line@.len() - i + target));
            assert(w.room(line@.len() - i + target - 1));
        }
        out.push(m);
        let ghost b = out@;
        follow(host, pos, line, i + 1, target, seen, out);
        pos.unmake_move(m);
        proof {
            lemma_followed(v, w, m, line@, i as int, a, out@, target as int);
        }
    } else {
        let room: usize = if target > i {
            target - i
        } else {
            0
        };
        proof {
            assert(v.room(room as int));
            let s = line@.skip(i as int);
            assert(s.len() > 0 ==> s[0] == line@[i as int]);
            assert(legal_prefix(v, s) == 0);
        }
        prolong(host, pos, room, seen, out);
        proof {
            let t = out@.subrange(i as int, out@.len() as int);
            assert(t.subrange(0, 0) =~= line@.subrange(i as int, i as int));
        }
    }
}

/// The line up to its first move that cannot be played, prolonged with the table's moves
/// toward `target` moves. For display only; the position is left as it was.
pub fn extend_pv_with_tt<H: Host>(
    host: &mut H,
    pos: &mut Position,
    line: &Vec<Move>,
    target: usize,
) -> (r: Vec<Move>)
    requires
        old(pos).wf(),
        old(pos)@.playable(),
        old(pos)@.room(line@.len() + target),
    ensures
        final(pos).wf(),
        final(pos)@ == old(pos)@,
        final(pos).keys == old(pos).keys,
        playable_line(old(pos)@, r@),
        ({
            let n = legal_prefix(old(pos)@, line@) as int;
            &&& n <= r@.len()
            &&& r@.subrange(0, n) == line@.subrange(0, n)
            &&& r@.len() == n || r@.len() <= target
        }),
{
    let mut seen: Vec<u64> = Vec::new();
    let mut out: Vec<Move> = Vec::new();
    proof {
        assert(line@.skip(0) =~= line@);
    }
    follow(host, pos, line, 0, target, &mut seen, &mut out);
    proof {
        assert(out@.subrange(0, out@.len() as int) =~= out@);
    }
    out
}

// The vote among threads

#[derive(Clone, Debug)]
pub struct ThreadResult {
    pub best_move: Move,
    pub score: Value,
    pub completed_depth: i32,
    pub pv_length: usize,
    pub nodes: u64,
}

/// Scores, depths and their number are such that votes can be counted.
pub open spec fn countable(s: Seq<ThreadResult>) -> bool {
    &&& s.len() <= 100_000
    &&& forall|i: int|
        0 <= i < s.len() ==> -1_000_000_000 <= (#[trigger] s[i]).score <= 1_000_000_000 && 0
            <= s[i].completed_depth <= 10_000
}

/// Lowest of the first `n` scores.
pub open spec fn lowest_score(s: Seq<ThreadResult>, n: nat) -> int
    decreases n,
{
    if n == 0 {
        0
    } else if n == 1 {
        s[0].score as int
    } else {
        let rest = lowest_score(s, (n - 1) as nat);
        if s[n - 1].score < rest {
            s[n - 1].score as int
        } else {
            rest
        }
    }
}

/// Weight of a thread's vote.
pub open spec fn vote(s: Seq<ThreadResult>, i: int) -> int {
    (s[i].score - lowest_score(s, s.len()) + 14) * s[i].completed_depth
}

/// Votes of the first `n` threads for a move.
pub open spec fn votes(s: Seq<ThreadResult>, m: Move, n: nat) -> int
    decreases n,
{
    if n == 0 {
        0
    } else {
        votes(s, m, (n - 1) as nat) + if s[n - 1].best_move == m {
            vote(s, n - 1)
        } else {
            0
        }
    }
}

/// Weight of a thread's vote that counts only with a line of more than two moves.
pub open spec fn line_vote(s: Seq<ThreadResult>, i: int) -> int {
    if s[i].pv_length > 2 {
        vote(s, i)
    } else {
        0
    }
}

/// Thread `i` beats thread `b`: a proven win wins outright, a proven loss is never switched
/// to, otherwise the votes for the move decide, then the longer line.
pub open spec fn outvotes(s: Seq<ThreadResult>, i: int, b: int) -> bool {
    let (x, y) = (s[i], s[b]);
    let new = votes(s, x.best_move, s.len());
    let best = votes(s, y.best_move, s.len());
    if is_win(y.score) || (y.score != -VALUE_INFINITE && is_loss(y.score)) {
        x.score > y.score
    } else {
        is_win(x.score) || (!is_loss(x.score) && (new > best || (new == best && line_vote(s, i)
            > line_vote(s, b))))
    }
}

/// The thread chosen among the first `n`.
pub open spec fn chosen(s: Seq<ThreadResult>, n: nat) -> int
    decreases n,
{
    if n == 0 {
        0
    } else {
        let b = chosen(s, (n - 1) as nat);
        if outvotes(s, n - 1, b) {
            n - 1
        } else {
            b
        }
    }
}

proof fn lemma_lowest_score(s: Seq<ThreadResult>, n: nat)
    requires
        countable(s),
        n <= s.len(),
    ensures
        -1_000_000_000 <= lowest_score(s, n) <= 1_000_000_000,
        forall|i: int| 0 <= i < n ==> lowest_score(s, n) <= (#[trigger] s[i]).score,
    decreases n,
{
    if n > 1 {
        lemma_lowest_score(s, (n - 1) as nat);
    }
}

proof fn lemma_vote(s: Seq<ThreadResult>, i: int)
    requires
        countable(s),
        0 <= i < s.len(),
    ensures
        0 <= vote(s, i) <= 20_000_000_140_000,
{
    lemma_lowest_score(s, s.len());
    let a = s[i].score - lowest_score(s, s.len()) + 14;
    let d = s[i].completed_depth as int;
    assert(0 <= a * d <= 20_000_000_140_000) by (nonlinear_arith)
        requires
            14 <= a <= 2_000_000_014,
            0 <= d <= 10_000,
    ;
}

proof fn lemma_votes(s: Seq<ThreadResult>, m: Move, n: nat)
    requires
        countable(s),
        n <= s.len(),
    ensures
        0 <= votes(s, m, n) <= 20_000_000_140_000 * n,
    decreases n,
{
    if n > 0 {
        lemma_votes(s, m, (n - 1) as nat);
        lemma_vote(s, n - 1);
    }
}

fn count_lowest(results: &Vec<ThreadResult>) -> (r: Value)
    requires
        countable(results@),
    ensures
        r == lowest_score(results@, results@.len()),
{
    if results.len() == 0 {
        return 0;
    }
    let mut low = results[0].score;
    let mut i: usize = 1;
    while i < results.len()
        invariant
            1 <= i <= results@.len(),
            low == lowest_score(results@, i as nat),
        decreases results@.len() - i,
    {
        if results[i].score < low {
            low = results[i].score;
        }
        i += 1;
    }
    low
}

fn vote_of(results: &Vec<ThreadResult>, low: Value, i: usize) -> (r: i64)
    requires
        countable(results@),
        i < results@.len(),
        low == lowest_score(results@, results@.len()),
    ensures
        r == vote(results@, i as int),
        0 <= r <= 20_000_000_140_000,
{
    proof {
        lemma_vote(results@, i as int);
        lemma_lowest_score(results@, results@.len());
    }
    (results[i].score as i64 - low as i64 + 14) * results[i].completed_depth as i64
}

fn count_votes(results: &Vec<ThreadResult>, low: Value, m: Move) -> (r: i64)
    requires
        countable(results@),
        low == lowest_score(results@, results@.len()),
    ensures
        r == votes(results@, m, results@.len()),
{
    let mut sum: i64 = 0;
    let mut i: usize = 0;
    while i < results.len()
        invariant
            i <= results@.len(),
            countable(results@),
            low == lowest_score(results@, results@.len()),
            sum == votes(results@, m, i as nat),
        decreases results@.len() - i,
    {
        proof {
            lemma_votes(results@, m, (i + 1) as nat);
            lemma_votes(results@, m, i as nat);
            lemma_vote(results@, i as int);
        }
        if results[i].best_move == m {
            sum = sum + vote_of(results, low, i);
        }
        i += 1;
    }
    sum
}

/// Thread voting: each move accrues `(score - min + 14) * depth` votes;
/// proven wins win outright and a proven loss is never switched to.
pub fn select_best_thread(results: &Vec<ThreadResult>) -> (r: usize)
    requires
        countable(results@),
    ensures
        r == chosen(results@, results@.len()),
        results@.len() > 0 ==> r < results@.len(),
{
    let low = count_lowest(results);
    let mut best: usize = 0;
    let mut i: usize = 0;
    while i < results.len()
        invariant
            i <= results@.len(),
            countable(results@),
            low == lowest_score(results@, results@.len()),
            best == chosen(results@, i as nat),
            best == 0 || best < i,
        decreases results@.len() - i,
    {
        let y = results[best].score;
        let x = results[i].score;
        let old_votes = count_votes(results, low, results[best].best_move);
        let new_votes = count_votes(results, low, results[i].best_move);
        let better = if is_win(y) || (y != -VALUE_INFINITE && is_loss(y)) {
            x > y
        } else {
            let a = if results[i].pv_length > 2 {
                vote_of(results, low, i)
            } else {
                0
            };
            let b = if results[best].pv_length > 2 {
                vote_of(results, low, best)
            } else {
                0
            };
            is_win(x) || (!is_loss(x) && (new_votes > old_votes || (new_votes == old_votes && a
                > b)))
        };
        if better {
            best = i;
        }
        i += 1;
    }
    best
}

// Reduced strength

/// One step of the generator the push is drawn from.
#[verifier::allow_in_spec]
pub fn next_random(x: u64) -> u64
    returns
        ({
            let a = x ^ (x << 13);
            let b = a ^ (a >> 7);
            b ^ (b << 17)
        }),
{
    let a = x ^ (x << 13);
    let b = a ^ (a >> 7);
    b ^ (b << 17)
}

/// The lines to choose from: the first four that have a score.
pub open spec fn scored_lines(list: Seq<RootMove>, n: nat) -> Seq<(Move, Value)>
    decreases n,
{
    if n == 0 {
        seq![]
    } else {
        let rest = scored_lines(list, (n - 1) as nat);
        if list[n - 1].score != -VALUE_INFINITE {
            rest.push((list[n - 1].mv, list[n - 1].score))
        } else {
            rest
        }
    }
}

/// What a line counts for: its score and a push that grows with its deficit and with
/// chance.
pub open spec fn pushed(score: int, top: int, delta: int, weakness: int, random: u64) -> int {
    score + quot(weakness * (top - score) + delta * (random as int % weakness), 128)
}

/// The generator after `k` steps.
pub open spec fn random_after(seed: u64, k: nat) -> u64
    decreases k,
{
    if k == 0 {
        seed
    } else {
        next_random(random_after(seed, (k - 1) as nat))
    }
}

/// Index of the line that counts for most among the first `n`, the last of equals.
pub open spec fn picked(
    c: Seq<(Move, Value)>,
    n: nat,
    delta: int,
    weakness: int,
    seed: u64,
) -> int
    decreases n,
{
    if n <= 1 {
        0
    } else {
        let b = picked(c, (n - 1) as nat, delta, weakness, seed);
        let top = c[0].1 as int;
        let x = pushed(c[n - 1].1 as int, top, delta, weakness, random_after(seed, n));
        let y = pushed(c[b].1 as int, top, delta, weakness, random_after(seed, (b + 1) as nat));
        if x >= y {
            n - 1
        } else {
            b
        }
    }
}

/// How much weaker than full strength: 120 less twice the level, at least one.
pub open spec fn weakness(level: i32) -> int {
    if 120 - 2 * level > 1 {
        120 - 2 * level
    } else {
        1
    }
}

/// The deficit of the last line, at most a pawn.
pub open spec fn spread(c: Seq<(Move, Value)>) -> int {
    let d = c[0].1 - c.last().1;
    if d < 100 {
        d
    } else {
        100
    }
}

/// The move chosen at reduced strength.
pub open spec fn skilled(list: Seq<RootMove>, level: i32, seed: u64) -> Move {
    let c = scored_lines(
        list,
        if list.len() < 4 {
            list.len()
        } else {
            4
        },
    );
    if c.len() == 0 {
        list[0].mv
    } else {
        c[picked(c, c.len(), spread(c), weakness(level), seed | 1)].0
    }
}

proof fn lemma_scored(list: Seq<RootMove>, n: nat)
    requires
        n <= list.len(),
        forall|i: int|
            0 <= i < list.len() ==> -SCORE_LIMIT <= (#[trigger] list[i]).score <= SCORE_LIMIT,
    ensures
        scored_lines(list, n).len() <= n,
        forall|k: int|
            0 <= k < scored_lines(list, n).len() ==> {
                let x = #[trigger] scored_lines(list, n)[k];
                lists_move(list, x.0) && -SCORE_LIMIT <= x.1 <= SCORE_LIMIT
            },
    decreases n,
{
    if n > 0 {
        lemma_scored(list, (n - 1) as nat);
        assert(lists_move(list, list[n - 1].mv));
    }
}

proof fn lemma_picked(c: Seq<(Move, Value)>, n: nat, delta: int, weakness: int, seed: u64)
    requires
        n <= c.len(),
        c.len() > 0,
    ensures
        0 <= picked(c, n, delta, weakness, seed) < c.len(),
        n > 0 ==> picked(c, n, delta, weakness, seed) < n,
    decreases n,
{
    if n > 1 {
        lemma_picked(c, (n - 1) as nat, delta, weakness, seed);
    }
}

fn push_score(score: Value, top: Value, delta: Value, weak: i64, random: u64) -> (r: i64)
    requires
        -SCORE_LIMIT <= score <= SCORE_LIMIT,
        -SCORE_LIMIT <= top <= SCORE_LIMIT,
        -80_002 <= delta <= 100,
        1 <= weak <= 3000,
    ensures
        r == pushed(score as int, top as int, delta as int, weak as int, random),
        -1_000_000_000 <= r <= 1_000_000_000,
{
    let part: i64 = (random % (weak as u64)) as i64;
    let gap: i64 = top as i64 - score as i64;
    proof {
        assert(-240_006_000 <= weak * gap <= 240_006_000) by (nonlinear_arith)
            requires
                1 <= weak <= 3000,
                -80_002 <= gap <= 80_002,
        ;
        assert(-240_006_000 <= delta * part <= 240_006_000) by (nonlinear_arith)
            requires
                0 <= part < 3000,
                -80_002 <= delta <= 100,
        ;
    }
    score as i64 + div_toward_zero(weak * gap + delta as i64 * part, 128)
}

/// Reduced-strength move choice: weaker levels accept larger score deficits, with a
/// pseudo-random push so play varies between games.
pub fn skill_pick(root_moves: &Vec<RootMove>, level: i32, seed: u64) -> (r: Move)
    requires
        root_moves@.len() >= 1,
        forall|i: int|
            0 <= i < root_moves@.len() ==> -SCORE_LIMIT <= (#[trigger] root_moves@[i]).score
                <= SCORE_LIMIT,
        -1000 <= level <= 1000,
    ensures
        r == skilled(root_moves@, level, seed),
        lists_move(root_moves@, r),
{
    let n: usize = if root_moves.len() < 4 {
        root_moves.len()
    } else {
        4
    };
    let mut c: Vec<(Move, Value)> = Vec::new();
    let mut i: usize = 0;
    while i < n
        invariant
            i <= n <= root_moves@.len(),
            c@ == scored_lines(root_moves@, i as nat),
        decreases n - i,
    {
        if root_moves[i].score != -VALUE_INFINITE {
            c.push((root_moves[i].mv, root_moves[i].score));
        }
        i += 1;
    }
    proof {
        lemma_scored(root_moves@, n as nat);
        assert(root_moves@[0].mv == root_moves@[0].mv);
    }
    if c.len() == 0 {
        return root_moves[0].mv;
    }
    let top = c[0].1;
    let gap: Value = top - c[c.len() - 1].1;
    let delta: Value = if gap < 100 {
        gap
    } else {
        100
    };
    let weak: i64 = if 120 - 2 * level > 1 {
        (120 - 2 * level) as i64
    } else {
        1
    };
    let ghost first = seed | 1;
    let mut random = next_random(seed | 1);
    let mut best: usize = 0;
    let mut most = push_score(top, top, delta, weak, random);
    proof {
        reveal_with_fuel(random_after, 2);
        assert(random_after(first, 1) == random);
    }
    let mut k: usize = 1;
    while k < c.len()
        invariant
            1 <= k <= c@.len(),
            top == c@[0].1,
            delta == spread(c@),
            -80_002 <= delta <= 100,
            1 <= weak <= 3000,
            weak == weakness(level),
            forall|x: int|
                0 <= x < c@.len() ==> -SCORE_LIMIT <= (#[trigger] c@[x]).1 <= SCORE_LIMIT,
            random == random_after(first, k as nat),
            best < k,
            best == picked(c@, k as nat, delta as int, weak as int, first),
            most == pushed(
                c@[best as int].1 as int,
                top as int,
                delta as int,
                weak as int,
                random_after(first, (best + 1) as nat),
            ),
        decreases c@.len() - k,
    {
        random = next_random(random);
        let s = push_score(c[k].1, top, delta, weak, random);
        if s >= most {
            most = s;
            best = k;
        }
        k += 1;
    }
    c[best].0
}

// The outcome

#[derive(Clone, Copy, PartialEq, Eq, Debug, Structural)]
pub struct SearchOutcome {
    pub best_move: Move,
    pub ponder: Move,
    pub score: Value,
    pub depth: i32,
    pub nodes: u64,
}

/// Index of the root move `m`, or the number of root moves.
pub open spec fn root_index(list: Seq<RootMove>, m: Move, i: int) -> int
    decreases list.len() - i,
{
    if i < 0 || i >= list.len() {
        list.len() as int
    } else if list[i].mv == m {
        i
    } else {
        root_index(list, m, i + 1)
    }
}

/// The reply expected to a root move: the second move of its line.
pub open spec fn expected_reply(list: Seq<RootMove>, m: Move) -> Move {
    let i = root_index(list, m, 0);
    if i < list.len() && list[i].pv@.len() > 1 {
        list[i].pv@[1]
    } else {
        Move(0)
    }
}

fn find_root(list: &Vec<RootMove>, m: Move) -> (r: usize)
    ensures
        r == root_index(list@, m, 0),
        r <= list@.len(),
        r < list@.len() ==> list@[r as int].mv == m,
{
    let mut i: usize = 0;
    while i < list.len()
        invariant
            i <= list@.len(),
            root_index(list@, m, 0) == root_index(list@, m, i as int),
        decreases list@.len() - i,
    {
        if list[i].mv == m {
            return i;
        }
        i += 1;
    }
    i
}

/// The reply expected to a root move.
pub fn ponder_move(list: &Vec<RootMove>, m: Move) -> (r: Move)
    ensures
        r == expected_reply(list@, m),
{
    let i = find_root(list, m);
    if i < list.len() && list[i].pv.len() > 1 {
        list[i].pv[1]
    } else {
        Move::none()
    }
}

/// Nodes of all threads together.
pub open spec fn node_sum(s: Seq<Searcher>, n: nat) -> int
    decreases n,
{
    if n == 0 {
        0
    } else {
        let rest = node_sum(s, (n - 1) as nat);
        if rest + s[n - 1].nodes <= u64::MAX {
            rest + s[n - 1].nodes
        } else {
            u64::MAX as int
        }
    }
}

fn count_nodes(searchers: &Vec<Searcher>) -> (r: u64)
    ensures
        r == node_sum(searchers@, searchers@.len()),
{
    let mut sum: u64 = 0;
    let mut i: usize = 0;
    while i < searchers.len()
        invariant
            i <= searchers@.len(),
            sum == node_sum(searchers@, i as nat),
        decreases searchers@.len() - i,
    {
        sum = if sum <= u64::MAX - searchers[i].nodes {
            sum + searchers[i].nodes
        } else {
            u64::MAX
        };
        i += 1;
    }
    sum
}

/// The thread has something to say.
pub open spec fn votes_at_all(s: Searcher) -> bool {
    s.root_moves@.len() > 0 && s.best_move_root.0 != 0
}

/// Threads with something to say, among the first `n`.
pub open spec fn voters(s: Seq<Searcher>, n: nat) -> Seq<int>
    decreases n,
{
    if n == 0 {
        seq![]
    } else if votes_at_all(s[n - 1]) {
        voters(s, (n - 1) as nat).push(n - 1)
    } else {
        voters(s, (n - 1) as nat)
    }
}

/// What a thread brings to the vote.
pub open spec fn ballot(s: Searcher) -> ThreadResult {
    ThreadResult {
        best_move: s.best_move_root,
        score: s.prev_score,
        completed_depth: if s.completed_depth > 1 {
            s.completed_depth
        } else {
            1
        },
        pv_length: s.root_moves@[0].pv@.len() as usize,
        nodes: s.nodes,
    }
}

pub open spec fn ballots(s: Seq<Searcher>) -> Seq<ThreadResult> {
    voters(s, s.len()).map_values(|i: int| ballot(s[i]))
}

proof fn lemma_voters(s: Seq<Searcher>, n: nat)
    requires
        n <= s.len(),
    ensures
        voters(s, n).len() <= n,
        forall|k: int|
            0 <= k < voters(s, n).len() ==> 0 <= #[trigger] voters(s, n)[k] < n && votes_at_all(
                s[voters(s, n)[k]],
            ),
    decreases n,
{
    if n > 0 {
        lemma_voters(s, (n - 1) as nat);
    }
}

/// What the vote of the threads comes to.
pub open spec fn vote_winner(all: Seq<Searcher>) -> SearchOutcome {
    let who = voters(all, all.len());
    let nodes = node_sum(all, all.len()) as u64;
    if who.len() == 0 {
        SearchOutcome {
            best_move: Move(0),
            ponder: Move(0),
            score: VALUE_DRAW,
            depth: 0,
            nodes,
        }
    } else {
        let w = all[who[chosen(ballots(all), ballots(all).len())]];
        SearchOutcome {
            best_move: w.best_move_root,
            ponder: expected_reply(w.root_moves@, w.best_move_root),
            score: w.prev_score,
            depth: w.completed_depth,
            nodes,
        }
    }
}

/// The outcome of a search by several threads: the thread that wins the vote speaks, no move
/// where none has anything to say.
pub fn voted_outcome(searchers: &Vec<Searcher>) -> (r: SearchOutcome)
    requires
        searchers@.len() <= 100_000,
        forall|i: int|
            0 <= i < searchers@.len() ==> -SCORE_LIMIT <= (#[trigger] searchers@[i]).prev_score
                <= SCORE_LIMIT && searchers@[i].completed_depth <= 10_000,
    ensures
        r == vote_winner(searchers@),
{
    let nodes = count_nodes(searchers);
    let mut who: Vec<usize> = Vec::new();
    let mut results: Vec<ThreadResult> = Vec::new();
    let ghost all = searchers@;
    let mut i: usize = 0;
    while i < searchers.len()
        invariant
            i <= searchers@.len(),
            all == searchers@,
            all.len() <= 100_000,
            who@.len() == voters(all, i as nat).len(),
            results@.len() == who@.len(),
            who@.len() <= i,
            forall|k: int|
                0 <= k < who@.len() ==> #[trigger] who@[k] == voters(all, i as nat)[k] && who@[k]
                    < i,
            forall|k: int|
                0 <= k < who@.len() ==> #[trigger] results@[k] == ballot(
                    all[voters(all, i as nat)[k]],
                ),
        decreases searchers@.len() - i,
    {
        let s = &searchers[i];
        if s.root_moves.len() > 0 && s.best_move_root.is_some() {
            who.push(i);
            results.push(
                ThreadResult {
                    best_move: s.best_move_root,
                    score: s.prev_score,
                    completed_depth: if s.completed_depth > 1 {
                        s.completed_depth
                    } else {
                        1
                    },
                    pv_length: s.root_moves[0].pv.len(),
                    nodes: s.nodes,
                },
            );
            proof {
                assert(results@.last() == ballot(all[i as int]));
            }
        }
        i += 1;
    }
    proof {
        lemma_voters(all, all.len());
        assert(results@ =~= ballots(all));
        assert forall|k: int| 0 <= k < results@.len() implies -1_000_000_000 <= (
        #[trigger] results@[k]).score <= 1_000_000_000 && 0 <= results@[k].completed_depth
            <= 10_000 by {
            let w = voters(all, all.len())[k];
            assert(-SCORE_LIMIT <= all[w].prev_score <= SCORE_LIMIT);
        }
    }
    if results.len() == 0 {
        return SearchOutcome {
            best_move: Move::none(),
            ponder: Move::none(),
            score: VALUE_DRAW,
            depth: 0,
            nodes,
        };
    }
    let best = select_best_thread(&results);
    let w = &searchers[who[best]];
    SearchOutcome {
        best_move: w.best_move_root,
        ponder: ponder_move(&w.root_moves, w.best_move_root),
        score: w.prev_score,
        depth: w.completed_depth,
        nodes,
    }
}

/// The outcome at reduced strength: one of the first lines of the first thread.
pub fn skilled_outcome(searchers: &Vec<Searcher>, key: u64) -> (r: SearchOutcome)
    requires
        searchers@.len() >= 1,
        searchers@[0].root_moves@.len() >= 1,
        forall|i: int|
            0 <= i < searchers@[0].root_moves@.len() ==> -SCORE_LIMIT <= (
            #[trigger] searchers@[0].root_moves@[i]).score <= SCORE_LIMIT,
        -1000 <= searchers@[0].skill_level <= 1000,
    ensures
        ({
            let s = searchers@[0];
            &&& r.best_move == skilled(s.root_moves@, s.skill_level, s.nodes ^ key)
            &&& r.ponder == expected_reply(s.root_moves@, r.best_move)
            &&& r.score == s.root_moves@[root_index(s.root_moves@, r.best_move, 0)].score
            &&& r.depth == s.completed_depth
            &&& r.nodes == node_sum(searchers@, searchers@.len())
        }),
{
    let s = &searchers[0];
    let pick = skill_pick(&s.root_moves, s.skill_level, s.nodes ^ key);
    let nodes = count_nodes(searchers);
    let i = find_root(&s.root_moves, pick);
    proof {
        lemma_root_index(s.root_moves@, pick, 0);
    }
    SearchOutcome {
        best_move: pick,
        ponder: ponder_move(&s.root_moves, pick),
        score: s.root_moves[i].score,
        depth: s.completed_depth,
        nodes,
    }
}

/// What a search comes to: the pick of the first thread at reduced strength, the winner of
/// the vote otherwise.
pub open spec fn settled(all: Seq<Searcher>, key: u64, r: SearchOutcome) -> bool {
    let s = all[0];
    if s.skill_level < 20 && s.root_moves@.len() > 0 {
        &&& r.best_move == skilled(s.root_moves@, s.skill_level, s.nodes ^ key)
        &&& r.ponder == expected_reply(s.root_moves@, r.best_move)
        &&& r.score == s.root_moves@[root_index(s.root_moves@, r.best_move, 0)].score
        &&& r.depth == s.completed_depth
        &&& r.nodes == node_sum(all, all.len())
    } else {
        r == vote_winner(all)
    }
}

/// The outcome of a search, at reduced strength where the level of the first thread asks
/// for it.
pub fn final_outcome(searchers: &Vec<Searcher>, key: u64) -> (r: SearchOutcome)
    requires
        1 <= searchers@.len() <= 100_000,
        forall|i: int|
            0 <= i < searchers@.len() ==> -SCORE_LIMIT <= (#[trigger] searchers@[i]).prev_score
                <= SCORE_LIMIT && searchers@[i].completed_depth <= 10_000,
        forall|i: int|
            0 <= i < searchers@[0].root_moves@.len() ==> -SCORE_LIMIT <= (
            #[trigger] searchers@[0].root_moves@[i]).score <= SCORE_LIMIT,
        -1000 <= searchers@[0].skill_level <= 1000,
    ensures
        settled(searchers@, key, r),
{
    let s = &searchers[0];
    if s.skill_level < 20 && s.root_moves.len() > 0 {
        skilled_outcome(searchers, key)
    } else {
        voted_outcome(searchers)
    }
}

/// A listed move has an index.
proof fn lemma_root_index(list: Seq<RootMove>, m: Move, i: int)
    requires
        0 <= i <= list.len(),
        exists|k: int| i <= k < list.len() && (#[trigger] list[k]).mv == m,
    ensures
        0 <= root_index(list, m, i) < list.len(),
    decreases list.len() - i,
{
    if i < list.len() && list[i].mv != m {
        lemma_root_index(list, m, i + 1);
    }
}

// What is answered can be played

/// A thread has searched the position under the limits.
pub open spec fn has_searched(s: Searcher, v: PosView, limits: &Limits) -> bool {
    &&& roots_ok(s.root_moves@, v)
    &&& forall|m: Move| #[trigger]
        lists_move(s.root_moves@, m) <==> v.legal(m) && limits.admits(m)
    &&& if s.root_moves@.len() > 0 {
        v.legal(s.best_move_root) && limits.admits(s.best_move_root)
    } else {
        s.best_move_root == Move(0)
    }
}

/// "No move" is never legal.
proof fn lemma_legal_is_some(v: PosView, m: Move)
    requires
        v.legal(m),
    ensures
        m.0 != 0,
{
}

/// The reply taken from the line of a legal move can be played after it.
proof fn lemma_reply(list: Seq<RootMove>, v: PosView, m: Move)
    requires
        roots_ok(list, v),
        lists_move(list, m),
    ensures
        v.legal(m),
        ({
            let reply = expected_reply(list, m);
            reply == Move(0) || playable_line(v, seq![m, reply])
        }),
{
    lemma_root_index(list, m, 0);
    lemma_indexed(list, m, 0);
    let i = root_index(list, m, 0);
    let pv = list[i].pv@;
    assert(list[i].ok(v));
    if pv.len() > 1 {
        let two = seq![m, pv[1]];
        reveal_with_fuel(playable_line, 3);
        assert(two[0] == pv[0]);
        assert(two.skip(1)[0] == pv.skip(1)[0]);
        assert(two.skip(1).skip(1).len() == 0);
    }
}

proof fn lemma_indexed(list: Seq<RootMove>, m: Move, i: int)
    requires
        0 <= i <= list.len(),
    ensures
        root_index(list, m, i) < list.len() ==> list[root_index(list, m, i)].mv == m,
        i <= root_index(list, m, i),
    decreases list.len() - i,
{
    if i < list.len() && list[i].mv != m {
        lemma_indexed(list, m, i + 1);
    }
}

proof fn lemma_chosen(s: Seq<ThreadResult>, n: nat)
    requires
        n > 0,
    ensures
        0 <= chosen(s, n) < n,
    decreases n,
{
    if n > 1 {
        lemma_chosen(s, (n - 1) as nat);
    } else {
        assert(chosen(s, 0) == 0);
    }
}

proof fn lemma_a_voter(s: Seq<Searcher>, i: int, n: nat)
    requires
        0 <= i < n <= s.len(),
        votes_at_all(s[i]),
    ensures
        voters(s, n).len() > 0,
    decreases n,
{
    if i < n - 1 {
        lemma_a_voter(s, i, (n - 1) as nat);
    }
}

proof fn lemma_skilled(list: Seq<RootMove>, level: i32, seed: u64)
    requires
        list.len() >= 1,
        forall|i: int|
            0 <= i < list.len() ==> -SCORE_LIMIT <= (#[trigger] list[i]).score <= SCORE_LIMIT,
    ensures
        lists_move(list, skilled(list, level, seed)),
{
    let n: nat = if list.len() < 4 {
        list.len()
    } else {
        4
    };
    let c = scored_lines(list, n);
    lemma_scored(list, n);
    assert(list[0].mv == list[0].mv);
    if c.len() > 0 {
        lemma_picked(c, c.len(), spread(c), weakness(level), seed | 1);
    }
}

/// Whatever the threads found and however they were made to agree, the answer to a search is
/// a legal move the limits allow, with a reply that can be played after it or none; without
/// such a move there is no answer.
pub proof fn answers_can_be_played(
    v: PosView,
    limits: &Limits,
    all: Seq<Searcher>,
    key: u64,
    r: SearchOutcome,
)
    requires
        all.len() >= 1,
        forall|i: int| 0 <= i < all.len() ==> has_searched(#[trigger] all[i], v, limits),
        settled(all, key, r),
    ensures
        (exists|m: Move| #[trigger] v.legal(m) && limits.admits(m)) ==> {
            &&& v.legal(r.best_move)
            &&& limits.admits(r.best_move)
            &&& r.ponder == Move(0) || playable_line(v, seq![r.best_move, r.ponder])
        },
        !(exists|m: Move| #[trigger] v.legal(m) && limits.admits(m)) ==> r.best_move == Move(0),
{
    let s = all[0];
    assert(has_searched(s, v, limits));
    if exists|m: Move| #[trigger] v.legal(m) && limits.admits(m) {
        let m = choose|m: Move| #[trigger] v.legal(m) && limits.admits(m);
        assert(lists_move(s.root_moves@, m));
        if s.skill_level < 20 && s.root_moves@.len() > 0 {
            assert forall|i: int| 0 <= i < s.root_moves@.len() implies -SCORE_LIMIT <= (
            #[trigger] s.root_moves@[i]).score <= SCORE_LIMIT by {
                assert(s.root_moves@[i].ok(v));
            }
            lemma_skilled(s.root_moves@, s.skill_level, s.nodes ^ key);
            lemma_reply(s.root_moves@, v, r.best_move);
        } else {
            lemma_legal_is_some(v, s.best_move_root);
            assert(votes_at_all(s));
            lemma_a_voter(all, 0, all.len());
            lemma_voters(all, all.len());
            let who = voters(all, all.len());
            lemma_chosen(ballots(all), ballots(all).len());
            let k = chosen(ballots(all), ballots(all).len());
            let w = all[who[k]];
            assert(has_searched(w, v, limits));
            assert(lists_move(w.root_moves@, w.best_move_root));
            lemma_reply(w.root_moves@, v, w.best_move_root);
        }
    } else {
        if s.root_moves@.len() > 0 {
            assert(v.legal(s.best_move_root) && limits.admits(s.best_move_root));
        }
        lemma_voters(all, all.len());
        let who = voters(all, all.len());
        if who.len() > 0 {
            let w = all[who[0]];
            assert(has_searched(w, v, limits));
            assert(v.legal(w.best_move_root) && limits.admits(w.best_move_root));
        }
    }
}

} // verus!
