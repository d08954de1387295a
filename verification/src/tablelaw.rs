//! What the transposition table keeps and what it gives up, and how mate scores pass
//! through it.

use vstd::prelude::*;

use crate::tt::{
    current_below, data_depth, data_gen_bound, decode, find_from, fits, pack_gen_bound, priority,
    relative_age, value_from_tt, value_to_tt, worst_below, Slot, Store,
};
use crate::types::{
    is_decisive, is_loss, is_win, mate_in, mated_in, Bound, Value, VALUE_EVAL_MAX, VALUE_NONE,
};

verus! {

// Mate scores

/// A nearer mate scores more for the winner and less for the loser, the two scores are each
/// other's negative, and every one of them is beyond any evaluation.
pub proof fn nearer_mates_score_more(p: usize, q: usize)
    requires
        p < q <= 128,
    ensures
        mate_in(p) > mate_in(q),
        mated_in(p) < mated_in(q),
        mated_in(p) == -mate_in(p),
        is_win(mate_in(q)) && !is_loss(mate_in(q)),
        is_loss(mated_in(q)) && !is_win(mated_in(q)),
        mate_in(q) > VALUE_EVAL_MAX,
        mated_in(q) < -VALUE_EVAL_MAX,
        !is_decisive(VALUE_EVAL_MAX),
{
}

/// The table keeps a mate by its distance from the node: one `k` plies below a node at any
/// ply is stored as a mate in `k`. Other scores are stored as they are.
pub proof fn mates_are_stored_from_the_node(ply: usize, k: usize, v: Value)
    requires
        ply + k <= 128,
        -32_000 <= v <= 32_000,
    ensures
        value_to_tt(mate_in((ply + k) as usize), ply) == mate_in(k),
        value_to_tt(mated_in((ply + k) as usize), ply) == mated_in(k),
        !is_decisive(v) ==> value_to_tt(v, ply) == v,
{
}

/// A mate read from the table counts from the root again, as far as the fifty-move rule lets
/// it happen; a mate that would come too late is no mate, but better than any evaluation.
pub proof fn mates_are_read_from_the_root(ply: usize, k: usize, rule50: i32, v: Value)
    requires
        ply + k <= 128,
        0 <= rule50,
        -32_000 <= v <= 32_000,
    ensures
        k + rule50 <= 100 ==> value_from_tt(mate_in(k), ply, rule50) == mate_in((ply + k) as usize)
            && value_from_tt(mated_in(k), ply, rule50) == mated_in((ply + k) as usize),
        k + rule50 > 100 ==> {
            &&& !is_decisive(value_from_tt(mate_in(k), ply, rule50))
            &&& value_from_tt(mate_in(k), ply, rule50) >= VALUE_EVAL_MAX
            &&& !is_decisive(value_from_tt(mated_in(k), ply, rule50))
            &&& value_from_tt(mated_in(k), ply, rule50) <= -VALUE_EVAL_MAX
        },
        !is_decisive(v) ==> value_from_tt(v, ply, rule50) == v,
        value_from_tt(VALUE_NONE, ply, rule50) == VALUE_NONE,
{
}

/// A position met again deeper in the tree is mated as much later.
pub proof fn mates_move_with_the_node(p: usize, q: usize, k: usize)
    requires
        p + k <= 128,
        q + k <= 128,
        k <= 100,
    ensures
        value_from_tt(value_to_tt(mate_in((p + k) as usize), p), q, 0) == mate_in(
            (q + k) as usize,
        ),
        value_from_tt(value_to_tt(mated_in((p + k) as usize), p), q, 0) == mated_in(
            (q + k) as usize,
        ),
{
}

/// What is good for one side is as bad for the other.
pub proof fn tables_are_even_handed(v: Value, ply: usize, rule50: i32)
    requires
        -32_000 <= v <= 32_000,
        ply <= 128,
    ensures
        value_to_tt((-v) as i32, ply) == -value_to_tt(v, ply),
        value_from_tt((-v) as i32, ply, rule50) == -value_from_tt(v, ply, rule50),
{
}

// Age and worth

/// An entry written in a generation is of age zero in it and one step of eight older in each
/// of the next thirty-one.
pub proof fn entries_age_by_generations(generation: u8, is_pv: bool, bound: Bound, n: int)
    requires
        generation % 8 == 0,
        0 <= n < 32,
    ensures
        relative_age(
            pack_gen_bound(generation, is_pv, bound),
            ((generation + 8 * n) % 256) as u8,
        ) == 8 * n,
{
}

/// Deeper, newer and principal entries are worth more: a ply counts one, a generation eight
/// and the principal variation two. Nothing is worth less than an empty one.
pub proof fn deeper_and_newer_entries_are_worth_more(a: Slot, b: Slot, e: Slot, generation: u8)
    requires
        a.data != 0,
        b.data != 0,
        e.data == 0,
    ensures
        priority(e, generation) < priority(a, generation),
        data_gen_bound(a.data) == data_gen_bound(b.data) ==> priority(a, generation) - priority(
            b,
            generation,
        ) == data_depth(a.data) - data_depth(b.data),
        data_depth(a.data) == data_depth(b.data) && (data_gen_bound(a.data) / 4) % 2 == (
        data_gen_bound(b.data) / 4) % 2 ==> priority(a, generation) - priority(b, generation)
            == relative_age(data_gen_bound(b.data), generation) - relative_age(
            data_gen_bound(a.data),
            generation,
        ),
        data_depth(a.data) == data_depth(b.data) && decode(a).is_pv && !decode(b).is_pv
            && relative_age(data_gen_bound(a.data), generation) == relative_age(
            data_gen_bound(b.data),
            generation,
        ) ==> priority(a, generation) == priority(b, generation) + 2,
{
}

/// The entry given up is worth no more than any other of the bucket, and less than those
/// before it.
pub proof fn the_least_worth_goes(b: Seq<Slot>, generation: u8, n: int)
    requires
        1 <= n,
    ensures
        ({
            let w = worst_below(b, generation, n);
            &&& 0 <= w < n
            &&& forall|i: int|
                0 <= i < n ==> priority(b[w], generation) <= priority(#[trigger] b[i], generation)
            &&& forall|i: int|
                0 <= i < w ==> priority(b[w], generation) < priority(#[trigger] b[i], generation)
        }),
    decreases n,
{
    if n > 1 {
        the_least_worth_goes(b, generation, n - 1);
    }
}

/// Which results take the place of an older one for the same position: every exact one,
/// every one over an entry of another generation, and otherwise those that are not more than
/// three plies shallower, five on the principal variation.
pub proof fn shallow_results_do_not_prevail(s: Store, old: Slot, generation: u8)
    ensures
        s.bound == Bound::Exact ==> s.prevails(old, generation),
        relative_age(data_gen_bound(old.data), generation) != 0 ==> s.prevails(old, generation),
        s.depth >= data_depth(old.data) - 3 ==> s.prevails(old, generation),
        s.is_pv && s.depth >= data_depth(old.data) - 5 ==> s.prevails(old, generation),
        s.bound != Bound::Exact && relative_age(data_gen_bound(old.data), generation) == 0
            && s.depth < data_depth(old.data) - 3 && !s.is_pv ==> !s.prevails(old, generation),
        s.bound != Bound::Exact && relative_age(data_gen_bound(old.data), generation) == 0
            && s.depth < data_depth(old.data) - 5 ==> !s.prevails(old, generation),
{
}

/// Storing changes one entry at most: the one for the position, or the least worth where
/// there is none.
pub proof fn one_entry_changes(s: Store, b: Seq<Slot>, k: u64, generation: u8)
    requires
        b.len() == 4,
    ensures
        ({
            let after = s.applied(b, k, generation);
            let i = find_from(b, k, 0);
            let at = if i < 4 {
                i
            } else {
                worst_below(b, generation, 4)
            };
            &&& after.len() == 4
            &&& forall|j: int| 0 <= j < 4 && j != at ==> #[trigger] after[j] == b[j]
        }),
{
    let i = find_from(b, k, 0);
    let w = worst_below(b, generation, 4);
    assert(0 <= w < 4) by {
        the_least_worth_goes(b, generation, 4);
    }
    assert(0 <= i <= 4) by {
        the_first_fitting_entry_is_found(b, k, 0);
    }
    let after = s.applied(b, k, generation);
    if i < 4 {
        let renewed = s.renewed(k, b[i], generation);
        let decayed = Slot { data: (b[i].data - 0x1_0000_0000) as u64, ..b[i] };
        assert(after == b.update(i, renewed) || after == b.update(i, decayed) || after == b);
    } else {
        let fresh = s.fresh(k, generation);
        assert(after == b.update(w, fresh));
    }
}

/// The entry found is the first that holds the position, and there is none where none does.
pub proof fn the_first_fitting_entry_is_found(b: Seq<Slot>, k: u64, i: int)
    requires
        0 <= i <= 4,
    ensures
        ({
            let f = find_from(b, k, i);
            &&& i <= f <= 4
            &&& f < 4 ==> fits(b[f], k)
            &&& forall|j: int| i <= j < f ==> !fits(#[trigger] b[j], k)
        }),
    decreases 4 - i,
{
    if i < 4 && !fits(b[i], k) {
        the_first_fitting_entry_is_found(b, k, i + 1);
    }
}

// Fullness

/// The fullness counts what was written in the current generation: nothing of an empty table
/// or one of older entries, everything of one written just now.
pub proof fn fullness_counts_current_entries(slots: Seq<Slot>, generation: u8, n: nat)
    ensures
        current_below(slots, generation, n) <= n,
        (forall|i: int|
            0 <= i < n ==> (#[trigger] slots[i]).data == 0 || relative_age(
                data_gen_bound(slots[i].data),
                generation,
            ) != 0) ==> current_below(slots, generation, n) == 0,
        (forall|i: int|
            0 <= i < n ==> (#[trigger] slots[i]).data != 0 && relative_age(
                data_gen_bound(slots[i].data),
                generation,
            ) == 0) ==> current_below(slots, generation, n) == n,
    decreases n,
{
    if n > 0 {
        fullness_counts_current_entries(slots, generation, (n - 1) as nat);
    }
}

} // verus!
