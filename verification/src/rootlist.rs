//! The list of root moves with the line found for each.

use vstd::prelude::*;

use crate::lines::playable_line;
use crate::rules::PosView;
use crate::searcher::{RootMove, SCORE_LIMIT};
use crate::types::{Move, Value, VALUE_INFINITE};

verus! {

/// The list holds the move.
pub open spec fn lists_move(list: Seq<RootMove>, m: Move) -> bool {
    exists|i: int| 0 <= i < list.len() && (#[trigger] list[i]).mv == m
}

impl RootMove {
    /// A legal move at the head of a line that can be played.
    pub open spec fn ok(self, v: PosView) -> bool {
        &&& v.legal(self.mv)
        &&& self.pv@.len() >= 1
        &&& self.pv@[0] == self.mv
        &&& playable_line(v, self.pv@)
        &&& -SCORE_LIMIT <= self.score <= SCORE_LIMIT
        &&& -SCORE_LIMIT <= self.prev_score <= SCORE_LIMIT
    }
}

/// Every root move is legal and heads a line that can be played; none stands twice.
pub open spec fn roots_ok(list: Seq<RootMove>, v: PosView) -> bool {
    &&& forall|i: int| 0 <= i < list.len() ==> (#[trigger] list[i]).ok(v)
    &&& forall|i: int, j: int|
        0 <= i < j < list.len() ==> (#[trigger] list[i]).mv != (#[trigger] list[j]).mv
}

/// The same moves, in another order and with other lines.
pub open spec fn same_roots(a: Seq<RootMove>, b: Seq<RootMove>) -> bool {
    &&& a.len() == b.len()
    &&& forall|m: Move|
        #![trigger lists_move(a, m)]
        #![trigger lists_move(b, m)]
        lists_move(a, m) <==> lists_move(b, m)
}

/// The first entry scores best, as far as its score stands for a value.
pub open spec fn heads_list(list: Seq<RootMove>) -> bool {
    -VALUE_INFINITE < list[0].score < VALUE_INFINITE ==> forall|i: int|
        0 < i < list.len() ==> (#[trigger] list[i]).score <= list[0].score
}

/// The list with entry `i` moved forward to place `j`.
pub open spec fn moved_up(a: Seq<RootMove>, i: int, j: int) -> Seq<RootMove> {
    a.remove(i).insert(j, a[i])
}

proof fn lemma_moved_up(a: Seq<RootMove>, i: int, j: int, v: PosView)
    requires
        0 <= j <= i < a.len(),
    ensures
        same_roots(a, moved_up(a, i, j)),
        roots_ok(a, v) ==> roots_ok(moved_up(a, i, j), v),
        forall|x: int| 0 <= x < j ==> moved_up(a, i, j)[x] == a[x],
        moved_up(a, i, j)[j] == a[i],
        forall|x: int| j < x <= i ==> moved_up(a, i, j)[x] == a[x - 1],
        forall|x: int| i < x < a.len() ==> moved_up(a, i, j)[x] == a[x],
{
    let b = moved_up(a, i, j);
    assert forall|m: Move| #[trigger] lists_move(a, m) <==> lists_move(b, m) by {
        if lists_move(a, m) {
            let x = choose|x: int| 0 <= x < a.len() && (#[trigger] a[x]).mv == m;
            let y = if x < j || x > i {
                x
            } else if x == i {
                j
            } else {
                x + 1
            };
            assert(b[y] == a[x]);
        }
        if lists_move(b, m) {
            let y = choose|y: int| 0 <= y < b.len() && (#[trigger] b[y]).mv == m;
            let x = if y < j || y > i {
                y
            } else if y == j {
                i
            } else {
                y - 1
            };
            assert(a[x] == b[y]);
        }
    }
}

/// Moves entry `i` forward to place `j`.
pub(crate) fn move_up(list: &mut Vec<RootMove>, i: usize, j: usize, Ghost(v): Ghost<PosView>)
    requires
        j <= i < old(list)@.len(),
    ensures
        final(list)@ == moved_up(old(list)@, i as int, j as int),
        same_roots(old(list)@, final(list)@),
        roots_ok(old(list)@, v) ==> roots_ok(final(list)@, v),
        forall|x: int| 0 <= x < j ==> final(list)@[x] == old(list)@[x],
        final(list)@[j as int] == old(list)@[i as int],
        forall|x: int| j < x <= i ==> final(list)@[x] == old(list)@[x - 1],
        forall|x: int| i < x < old(list)@.len() ==> final(list)@[x] == old(list)@[x],
{
    proof {
        lemma_moved_up(list@, i as int, j as int, v);
    }
    let x = list.remove(i);
    list.insert(j, x);
}

proof fn lemma_entry_changed(a: Seq<RootMove>, i: int, rm: RootMove, v: PosView)
    requires
        0 <= i < a.len(),
        rm.mv == a[i].mv,
        roots_ok(a, v) ==> rm.ok(v),
    ensures
        same_roots(a, a.update(i, rm)),
        roots_ok(a, v) ==> roots_ok(a.update(i, rm), v),
{
    let b = a.update(i, rm);
    assert forall|m: Move| #[trigger] lists_move(a, m) <==> lists_move(b, m) by {
        if lists_move(a, m) {
            let x = choose|x: int| 0 <= x < a.len() && (#[trigger] a[x]).mv == m;
            assert(b[x].mv == m);
        }
        if lists_move(b, m) {
            let x = choose|x: int| 0 <= x < b.len() && (#[trigger] b[x]).mv == m;
            assert(a[x].mv == m);
        }
    }
}

/// Adds nodes to the count of an entry.
pub(crate) fn add_root_nodes(list: &mut Vec<RootMove>, i: usize, nodes: u64, Ghost(v): Ghost<
    PosView,
>)
    requires
        i < old(list)@.len(),
    ensures
        same_roots(old(list)@, final(list)@),
        roots_ok(old(list)@, v) ==> roots_ok(final(list)@, v),
        final(list)@ == old(list)@.update(
            i as int,
            RootMove {
                nodes: if old(list)@[i as int].nodes + nodes <= u64::MAX {
                    (old(list)@[i as int].nodes + nodes) as u64
                } else {
                    u64::MAX
                },
                ..old(list)@[i as int]
            },
        ),
{
    let ghost a = list@;
    let mut rm = list.remove(i);
    rm.nodes = if rm.nodes <= u64::MAX - nodes {
        rm.nodes + nodes
    } else {
        u64::MAX
    };
    proof {
        if roots_ok(a, v) {
            assert(a[i as int].ok(v));
        }
        lemma_entry_changed(a, i as int, rm, v);
    }
    list.insert(i, rm);
    proof {
        assert(list@ =~= a.update(i as int, list@[i as int]));
    }
}

/// Sets the score of an entry.
pub(crate) fn set_root_score(list: &mut Vec<RootMove>, i: usize, score: Value, Ghost(v): Ghost<
    PosView,
>)
    requires
        i < old(list)@.len(),
        -SCORE_LIMIT <= score <= SCORE_LIMIT,
    ensures
        same_roots(old(list)@, final(list)@),
        roots_ok(old(list)@, v) ==> roots_ok(final(list)@, v),
        final(list)@ == old(list)@.update(
            i as int,
            RootMove { score, ..old(list)@[i as int] },
        ),
{
    let ghost a = list@;
    let mut rm = list.remove(i);
    rm.score = score;
    proof {
        if roots_ok(a, v) {
            assert(a[i as int].ok(v));
        }
        lemma_entry_changed(a, i as int, rm, v);
    }
    list.insert(i, rm);
    proof {
        assert(list@ =~= a.update(i as int, list@[i as int]));
    }
}

/// Sets the score and the line of an entry.
pub(crate) fn set_root_line(
    list: &mut Vec<RootMove>,
    i: usize,
    score: Value,
    pv: Vec<Move>,
    Ghost(v): Ghost<PosView>,
)
    requires
        i < old(list)@.len(),
        -SCORE_LIMIT <= score <= SCORE_LIMIT,
        pv@.len() >= 1,
        pv@[0] == old(list)@[i as int].mv,
        playable_line(v, pv@),
    ensures
        same_roots(old(list)@, final(list)@),
        roots_ok(old(list)@, v) ==> roots_ok(final(list)@, v),
        final(list)@ == old(list)@.update(
            i as int,
            RootMove { score, pv, ..old(list)@[i as int] },
        ),
{
    let ghost a = list@;
    let mut rm = list.remove(i);
    rm.score = score;
    rm.pv = pv;
    proof {
        if roots_ok(a, v) {
            assert(a[i as int].ok(v));
        }
        lemma_entry_changed(a, i as int, rm, v);
    }
    list.insert(i, rm);
    proof {
        assert(list@ =~= a.update(i as int, list@[i as int]));
    }
}

/// The scores become those of the iteration before.
pub(crate) fn age_roots(list: &mut Vec<RootMove>, Ghost(v): Ghost<PosView>)
    ensures
        same_roots(old(list)@, final(list)@),
        roots_ok(old(list)@, v) ==> roots_ok(final(list)@, v),
        final(list)@.len() == old(list)@.len(),
        forall|i: int|
            0 <= i < old(list)@.len() ==> #[trigger] final(list)@[i] == (RootMove {
                prev_score: old(list)@[i].score,
                ..old(list)@[i]
            }),
{
    let ghost a = list@;
    let mut i: usize = 0;
    while i < list.len()
        invariant
            i <= list@.len(),
            a == old(list)@,
            list@.len() == a.len(),
            same_roots(a, list@),
            roots_ok(a, v) ==> roots_ok(list@, v),
            forall|k: int|
                0 <= k < i ==> #[trigger] list@[k] == (RootMove { prev_score: a[k].score, ..a[k] }),
            forall|k: int| i <= k < a.len() ==> #[trigger] list@[k] == a[k],
        decreases list@.len() - i,
    {
        let ghost b = list@;
        let mut rm = list.remove(i);
        rm.prev_score = rm.score;
        proof {
            if roots_ok(b, v) {
                assert(b[i as int].ok(v));
            }
            lemma_entry_changed(b, i as int, rm, v);
        }
        list.insert(i, rm);
        proof {
            assert(list@ =~= b.update(i as int, list@[i as int]));
        }
        i += 1;
    }
}

/// Entry `x` goes before entry `y`: a larger key, or an equal one further up.
pub open spec fn goes_before(keys: Seq<i32>, x: int, y: int) -> bool {
    keys[x] > keys[y] || (keys[x] == keys[y] && x < y)
}

/// `b` is `a` with the entries from `lo` to `hi` put in the order of their keys, largest
/// first and equal ones as they stood; `p` tells where each entry of `b` stood.
pub open spec fn put_in_order(
    a: Seq<RootMove>,
    b: Seq<RootMove>,
    keys: Seq<i32>,
    lo: int,
    hi: int,
    p: Seq<int>,
) -> bool {
    &&& b.len() == a.len()
    &&& p.len() == a.len()
    &&& forall|i: int|
        0 <= i < a.len() ==> 0 <= #[trigger] p[i] < a.len() && b[i] == a[p[i]]
    &&& forall|i: int| 0 <= i < a.len() && !(lo <= i < hi) ==> #[trigger] p[i] == i
    &&& forall|i: int| lo <= i < hi ==> lo <= #[trigger] p[i] < hi
    &&& forall|i: int, j: int|
        lo <= i < j < hi ==> goes_before(keys, #[trigger] p[i], #[trigger] p[j])
}

/// Puts the entries from `lo` to `hi` in the order of their keys.
#[verifier::rlimit(40)]
pub(crate) fn sort_roots(
    list: &mut Vec<RootMove>,
    keys: &Vec<i32>,
    lo: usize,
    hi: usize,
    Ghost(v): Ghost<PosView>,
)
    requires
        lo <= hi <= old(list)@.len(),
        keys@.len() == old(list)@.len(),
    ensures
        exists|p: Seq<int>|
            put_in_order(old(list)@, final(list)@, keys@, lo as int, hi as int, p),
        same_roots(old(list)@, final(list)@),
        roots_ok(old(list)@, v) ==> roots_ok(final(list)@, v),
{
    let ghost a = list@;
    let ghost mut p = Seq::new(a.len(), |i: int| i);
    let mut at: Vec<i32> = Vec::new();
    let mut i: usize = 0;
    while i < keys.len()
        invariant
            i <= keys@.len(),
            at@.len() == i,
            forall|x: int| 0 <= x < i ==> #[trigger] at@[x] == keys@[x],
        decreases keys@.len() - i,
    {
        at.push(keys[i]);
        i += 1;
    }
    let mut i: usize = lo;
    while i < hi
        invariant
            lo <= i <= hi <= a.len(),
            keys@.len() == a.len(),
            a == old(list)@,
            list@.len() == a.len(),
            at@.len() == a.len(),
            p.len() == a.len(),
            same_roots(a, list@),
            roots_ok(a, v) ==> roots_ok(list@, v),
            forall|x: int|
                0 <= x < a.len() ==> 0 <= #[trigger] p[x] < a.len() && list@[x] == a[p[x]]
                    && at@[x] == keys@[p[x]],
            forall|x: int| 0 <= x < a.len() && !(lo <= x < i) ==> #[trigger] p[x] == x,
            forall|x: int| lo <= x < i ==> lo <= #[trigger] p[x] < i,
            forall|x: int, y: int|
                lo <= x < y < i ==> goes_before(keys@, #[trigger] p[x], #[trigger] p[y]),
        decreases hi - i,
    {
        let key = at[i];
        let mut j = i;
        while j > lo && at[j - 1] < key
            invariant
                lo <= j <= i < hi <= a.len(),
                at@.len() == a.len(),
                key == at@[i as int],
                forall|x: int| j <= x < i ==> #[trigger] at@[x] < key,
            decreases j,
        {
            j -= 1;
        }
        let ghost before = p;
        let ghost at0 = at@;
        move_up(list, i, j, Ghost(v));
        let k = at.remove(i);
        at.insert(j, k);
        proof {
            p = p.remove(i as int).insert(j as int, p[i as int]);
            assert forall|x: int| 0 <= x < a.len() implies 0 <= #[trigger] p[x] < a.len()
                && list@[x] == a[p[x]] && at@[x] == keys@[p[x]] by {
                let y = if x < j || x > i {
                    x
                } else if x == j {
                    i as int
                } else {
                    x - 1
                };
                assert(p[x] == before[y]);
                assert(at@[x] == at0[y]);
                assert(at0[y] == keys@[before[y]]);
            }
            assert forall|x: int, y: int| lo <= x < y < i + 1 implies goes_before(
                keys@,
                #[trigger] p[x],
                #[trigger] p[y],
            ) by {
                let x0 = if x < j {
                    x
                } else if x == j {
                    i as int
                } else {
                    x - 1
                };
                let y0 = if y < j {
                    y
                } else if y == j {
                    i as int
                } else {
                    y - 1
                };
                assert(p[x] == before[x0]);
                assert(p[y] == before[y0]);
                assert(at0[x0] == keys@[before[x0]]);
                assert(at0[y0] == keys@[before[y0]]);
                assert(before[i as int] == i);
                if y == j && j > lo {
                    if x < j - 1 {
                        assert(goes_before(keys@, before[x], before[j - 1]));
                    }
                    assert(at0[j - 1] >= key);
                    assert(at0[j - 1] == keys@[before[j - 1]]);
                }
            }
            assert forall|x: int| lo <= x < i + 1 implies lo <= #[trigger] p[x] < i + 1 by {
                let x0 = if x < j {
                    x
                } else if x == j {
                    i as int
                } else {
                    x - 1
                };
                assert(p[x] == before[x0]);
            }
            assert forall|x: int| 0 <= x < a.len() && !(lo <= x < i + 1) implies #[trigger] p[x]
                == x by {
                assert(p[x] == before[x]);
            }
        }
        i += 1;
    }
    assert(put_in_order(a, list@, keys@, lo as int, hi as int, p));
}

} // verus!
