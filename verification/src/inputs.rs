//! The inputs a position switches on, as text for comparison with a trainer.

use vstd::prelude::*;
use vstd::multiset::group_multiset_axioms;
use vstd::seq_lib::group_to_multiset_ensures;

use crate::network::lemma_empty_totals;
use crate::nnue::{perspective, perspective_of};
use crate::snapshot::{
    aux_total, bare_board, compute, list_sum, psqt_total, Perspective, Snapshot,
};
use crate::text::{decimal, push_natural, push_text};
use crate::threats::ThreatTables;
use crate::types::Color;

verus! {

/// Ascending.
pub open spec fn ascending(s: Seq<usize>) -> bool {
    forall|i: int, j: int| 0 <= i < j < s.len() ==> #[trigger] s[i] <= #[trigger] s[j]
}

/// A list of inputs in ascending order.
pub fn sorted_inputs(v: &Vec<usize>) -> (r: Vec<usize>)
    ensures
        ascending(r@),
        r@.to_multiset() == v@.to_multiset(),
{
    let mut r: Vec<usize> = Vec::new();
    let mut i: usize = 0;
    proof {
        assert(v@.subrange(0, 0) =~= r@);
    }
    while i < v.len()
        invariant
            i <= v@.len(),
            r@.len() == i,
            ascending(r@),
            r@.to_multiset() == v@.subrange(0, i as int).to_multiset(),
        decreases v@.len() - i,
    {
        let x = v[i];
        let mut j = r.len();
        while j > 0 && r[j - 1] > x
            invariant
                j <= r@.len(),
                ascending(r@),
                forall|k: int| j <= k < r@.len() ==> #[trigger] r@[k] > x,
            decreases j,
        {
            j -= 1;
        }
        let ghost before = r@;
        r.insert(j, x);
        proof {
            broadcast use {group_to_multiset_ensures, group_multiset_axioms};

            assert(r@.remove(j as int) =~= before);
            assert(r@.to_multiset().remove(x) =~= before.to_multiset());
            assert(r@.contains(x)) by {
                assert(r@[j as int] == x);
            }
            assert(r@.to_multiset() =~= before.to_multiset().insert(x));
            assert(v@.subrange(0, i + 1) =~= v@.subrange(0, i as int).push(x));
            assert(ascending(r@)) by {
                assert forall|a: int, b: int| 0 <= a < b < r@.len() implies #[trigger] r@[a]
                    <= #[trigger] r@[b] by {
                    let a0 = if a < j {
                        a
                    } else {
                        a - 1
                    };
                    let b0 = if b < j {
                        b
                    } else {
                        b - 1
                    };
                    if a != j && b != j {
                        assert(r@[a] == before[a0] && r@[b] == before[b0]);
                    } else if a == j {
                        assert(r@[b] == before[b0]);
                    } else {
                        assert(r@[a] == before[a0]);
                        if a < j - 1 {
                            assert(before[a] <= before[j - 1]);
                        }
                    }
                }
            }
        }
        i += 1;
    }
    proof {
        assert(v@.subrange(0, i as int) =~= v@);
    }
    r
}

/// A name and a list of numbers, a space before each.
pub open spec fn numbers_text(s: Seq<usize>, n: nat) -> Seq<char>
    decreases n,
{
    if n == 0 {
        seq![]
    } else {
        numbers_text(s, (n - 1) as nat) + " "@ + decimal(s[n - 1] as nat)
    }
}

pub open spec fn inputs_line(name: Seq<char>, s: Seq<usize>) -> Seq<char> {
    name + numbers_text(s, s.len()) + seq!['\n']
}

fn push_inputs(out: &mut String, name: &str, s: &Vec<usize>)
    ensures
        final(out)@ == old(out)@ + inputs_line(name@, s@),
{
    let ghost head = out@;
    push_text(out, name);
    let mut i: usize = 0;
    while i < s.len()
        invariant
            i <= s@.len(),
            out@ =~= head + name@ + numbers_text(s@, i as nat),
        decreases s@.len() - i,
    {
        push_text(out, " ");
        push_natural(out, s[i] as u64);
        i += 1;
    }
    crate::text::push_char(out, '\n');
    proof {
        assert(out@ =~= head + inputs_line(name@, s@));
    }
}

/// The ascending list holds the piece-square inputs of the board, each as often as it is
/// on: under any weights it sums to the total.
pub open spec fn lists_psqt(s: Seq<usize>, snap: Snapshot, v: Perspective) -> bool {
    &&& ascending(s)
    &&& exists|t: Seq<usize>|
        {
            &&& #[trigger] t.to_multiset() == s.to_multiset()
            &&& forall|w: spec_fn(int) -> int| #[trigger]
                list_sum(t, w) == psqt_total(snap.board@, v, w, 64)
        }
}

/// The ascending list holds the threats and pawn pairs of the board.
pub open spec fn lists_aux(s: Seq<usize>, snap: Snapshot, v: Perspective) -> bool {
    &&& ascending(s)
    &&& exists|t: Seq<usize>|
        {
            &&& #[trigger] t.to_multiset() == s.to_multiset()
            &&& forall|w: spec_fn(int) -> int| #[trigger]
                list_sum(t, w) == aux_total(snap.board@, v, w)
        }
}

/// The inputs that are on for a side, piece-square inputs and others.
fn inputs_of(tables: &ThreatTables, snap: &Snapshot, v: Perspective) -> (r: (Vec<usize>, Vec<usize>))
    requires
        tables.wf(),
        snap.wf(),
        snap.threats_ready,
        v.wf(),
    ensures
        lists_psqt(r.0@, *snap, v),
        lists_aux(r.1@, *snap, v),
{
    let empty = Snapshot::empty();
    let lists = compute(tables, &empty, snap, v);
    let a = sorted_inputs(&lists.psqt_add);
    let b = sorted_inputs(&lists.aux_add);
    proof {
        assert(bare_board(empty.board@));
        let s = lists.psqt_add@;
        let t = lists.aux_add@;
        assert forall|w: spec_fn(int) -> int| #[trigger]
            list_sum(s, w) == psqt_total(snap.board@, v, w, 64) by {
            lemma_empty_totals(empty.board@, v, w, w, 4096);
            assert(lists.psqt_net(w) == psqt_total(snap.board@, v, w, 64) - psqt_total(
                empty.board@,
                v,
                w,
                64,
            ));
        }
        assert forall|w: spec_fn(int) -> int| #[trigger]
            list_sum(t, w) == aux_total(snap.board@, v, w) by {
            lemma_empty_totals(empty.board@, v, w, w, 4096);
            assert(lists.aux_net(w) == aux_total(snap.board@, v, w) - aux_total(
                empty.board@,
                v,
                w,
            ));
        }
        assert(s.to_multiset() == a@.to_multiset());
        assert(t.to_multiset() == b@.to_multiset());
    }
    (a, b)
}

/// The text is the four lines of the inputs `a` to `d`, which are those of the board.
pub open spec fn four_lines(
    text: Seq<char>,
    snap: Snapshot,
    us: Perspective,
    them: Perspective,
    a: Seq<usize>,
    b: Seq<usize>,
    c: Seq<usize>,
    d: Seq<usize>,
) -> bool {
    &&& lists_psqt(a, snap, us)
    &&& lists_psqt(b, snap, them)
    &&& lists_aux(c, snap, us)
    &&& lists_aux(d, snap, them)
    &&& text == inputs_line("stm_psqt"@, a) + inputs_line("ntm_psqt"@, b) + inputs_line(
        "stm_aux"@,
        c,
    ) + inputs_line("ntm_aux"@, d)
}

/// Active feature indices of `snap` for both perspectives, side to move first, as four
/// ascending lines (`stm_psqt`, `ntm_psqt`, `stm_aux`, `ntm_aux`) for cross-checking against
/// the trainer.
pub fn debug_features(tables: &ThreatTables, snap: Snapshot, stm: Color) -> (r: String)
    requires
        tables.wf(),
        snap.wf(),
        snap.kings@[0] < 64,
        snap.kings@[1] < 64,
    ensures
        exists|a: Seq<usize>, b: Seq<usize>, c: Seq<usize>, d: Seq<usize>| #[trigger]
            four_lines(
                r@,
                snap,
                perspective(stm, snap.kings@[stm.idx() as int]),
                perspective(stm.flip(), snap.kings@[stm.flip().idx() as int]),
                a,
                b,
                c,
                d,
            ),
{
    let mut full = snap;
    full.ensure_threats();
    let us = perspective_of(stm, snap.kings[stm.idx()]);
    let them = perspective_of(stm.flip(), snap.kings[stm.flip().idx()]);
    let (a, c) = inputs_of(tables, &full, us);
    let (b, d) = inputs_of(tables, &full, them);
    let mut out = String::new();
    push_inputs(&mut out, "stm_psqt", &a);
    push_inputs(&mut out, "ntm_psqt", &b);
    push_inputs(&mut out, "stm_aux", &c);
    push_inputs(&mut out, "ntm_aux", &d);
    proof {
        assert(out@ =~= inputs_line("stm_psqt"@, a@) + inputs_line("ntm_psqt"@, b@) + inputs_line(
            "stm_aux"@,
            c@,
        ) + inputs_line("ntm_aux"@, d@));
        assert(four_lines(out@, snap, us, them, a@, b@, c@, d@));
    }
    out
}

} // verus!
