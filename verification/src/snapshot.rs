//! What the network sees of a position, and how its inputs change from one position to
//! another.

use vstd::prelude::*;

use crate::bitboard::{attacks_bb, pawn_attacks, sq_bb, test_bit};
use crate::bits::{group_has, holds, lemma_empty, lemma_ext};
use crate::geometry::{hits, on_board, reaches};
use crate::rules::{lemma_occ, occ, Board};
use crate::threats::{
    can_attack, oriented, pair_number, pawn_place, pp_feature, psqt_feature, seen_threat,
    threat_inputs_are_in_range, ThreatTables, AUX_FEATURES, INPUT_BUCKETS, PP_FEATURES,
    PSQT_FEATURES,
};
use crate::types::{file, rank, Bitboard, Color, Piece, PieceType, Square};

verus! {

broadcast use {group_has, lemma_occ};

/// A piece that can threaten and be threatened: any but a king.
pub open spec fn is_actor(b: Board, s: int) -> bool {
    on_board(s) && b[s].0 < 12 && b[s].piece_type() != PieceType::King
}

/// The piece on `s` attacks the one on `d`, neither a king.
pub open spec fn threat(b: Board, s: int, d: int) -> bool {
    is_actor(b, s) && is_actor(b, d) && hits(b[s].color(), b[s].piece_type(), s, d, occ(b))
}

/// A pawn.
pub open spec fn is_pawn(b: Board, s: int) -> bool {
    on_board(s) && b[s].0 < 12 && b[s].piece_type() == PieceType::Pawn
}

/// Two pawns on the same file or on neighbouring ones.
pub open spec fn paired(b: Board, s: int, d: int) -> bool {
    s < d && is_pawn(b, s) && is_pawn(b, d) && -1 <= file(s) - file(d) <= 1
}

/// Side, king bucket and mirror flag inputs are numbered for.
#[derive(Clone, Copy, PartialEq, Eq, Structural)]
pub struct Perspective {
    pub p: Color,
    pub bucket: usize,
    pub flip: u8,
}

impl Perspective {
    pub open spec fn wf(self) -> bool {
        self.bucket < INPUT_BUCKETS && (self.flip == 0 || self.flip == 7)
    }
}

/// What the threat numbered `k` (attacker's square times 64 plus the target's) contributes
/// under the weights `w`.
pub open spec fn threat_part(b: Board, v: Perspective, w: spec_fn(int) -> int, k: int) -> int {
    let (s, d) = (k / 64, k % 64);
    if threat(b, s, d) {
        match seen_threat(b[s], s as Square, d as Square, b[d], v.p, v.flip) {
            Some(f) => w(f),
            None => 0,
        }
    } else {
        0
    }
}

pub open spec fn threat_total(b: Board, v: Perspective, w: spec_fn(int) -> int, n: nat) -> int
    decreases n,
{
    if n == 0 {
        0
    } else {
        threat_total(b, v, w, (n - 1) as nat) + threat_part(b, v, w, n - 1)
    }
}

/// What the pair of squares numbered `k` contributes where pawns stand on both.
pub open spec fn pair_part(b: Board, v: Perspective, w: spec_fn(int) -> int, k: int) -> int {
    let (s, d) = (k / 64, k % 64);
    if paired(b, s, d) {
        w(
            pair_number(
                pawn_place(b[s].color(), s as Square, v.p, v.flip),
                pawn_place(b[d].color(), d as Square, v.p, v.flip),
            ),
        )
    } else {
        0
    }
}

pub open spec fn pair_total(b: Board, v: Perspective, w: spec_fn(int) -> int, n: nat) -> int
    decreases n,
{
    if n == 0 {
        0
    } else {
        pair_total(b, v, w, (n - 1) as nat) + pair_part(b, v, w, n - 1)
    }
}

/// Sum of the weights of all threats and pawn pairs on the board.
pub open spec fn aux_total(b: Board, v: Perspective, w: spec_fn(int) -> int) -> int {
    threat_total(b, v, w, 4096) + pair_total(b, v, w, 4096)
}

pub open spec fn psqt_part(b: Board, v: Perspective, w: spec_fn(int) -> int, s: int) -> int {
    if b[s].0 < 12 {
        w(psqt_feature(v.p, v.bucket, v.flip, b[s], s as Square) as int)
    } else {
        0
    }
}

/// Sum of the weights of the pieces on the first `n` squares.
pub open spec fn psqt_total(b: Board, v: Perspective, w: spec_fn(int) -> int, n: nat) -> int
    decreases n,
{
    if n == 0 {
        0
    } else {
        psqt_total(b, v, w, (n - 1) as nat) + psqt_part(b, v, w, n - 1)
    }
}

/// Sum of the weights of a list of inputs.
pub open spec fn list_sum(s: Seq<usize>, w: spec_fn(int) -> int) -> int
    decreases s.len(),
{
    if s.len() == 0 {
        0
    } else {
        list_sum(s.drop_last(), w) + w(s.last() as int)
    }
}

proof fn lemma_pushed(s: Seq<usize>, f: usize)
    ensures
        forall|w: spec_fn(int) -> int| #[trigger]
            list_sum(s.push(f), w) == list_sum(s, w) + w(f as int),
{
    assert(s.push(f).drop_last() =~= s);
}

/// What the network sees of a position: the board, every non-king piece's attacks on
/// non-king pieces, and where the kings are.
#[derive(Clone, Copy)]
pub struct Snapshot {
    pub board: [Piece; 64],
    /// Attack sets, filled in by `ensure_threats` the first time a difference needs them.
    pub threats: [Bitboard; 64],
    pub threats_ready: bool,
    /// All pieces but the kings: the possible attackers and targets.
    pub attackers: Bitboard,
    pub occ: Bitboard,
    pub kings: [Square; 2],
}

impl Snapshot {
    /// The attack sets are those of the board.
    pub open spec fn threats_ok(&self) -> bool {
        forall|s: int, d: int|
            on_board(s) ==> (#[trigger] holds(self.threats@[s], d) <==> threat(self.board@, s, d))
    }

    pub open spec fn wf(&self) -> bool {
        &&& board_fits(self.board@)
        &&& self.occ == occ(self.board@)
        &&& forall|s: int| #[trigger] holds(self.attackers, s) <==> is_actor(self.board@, s)
        &&& self.threats_ready ==> self.threats_ok()
    }

    /// No pieces at all.
    pub fn empty() -> (r: Snapshot)
        ensures
            r.wf(),
            r.threats_ready,
            r.kings@ == seq![64u8, 64],
            forall|s: int| 0 <= s < 64 ==> (#[trigger] r.board@[s]).0 == 12,
    {
        let r = Snapshot {
            board: [Piece(12);64],
            threats: [0;64],
            threats_ready: true,
            attackers: 0,
            occ: 0,
            kings: [64, 64],
        };
        proof {
            vstd::array::axiom_spec_array_fill_for_copy_type::<Piece, 64>(Piece(12));
            vstd::array::axiom_spec_array_fill_for_copy_type::<u64, 64>(0);
            assert forall|s: int| 0 <= s < 64 implies (#[trigger] r.board@[s]).0 == 12 by {}
            assert forall|s: int| #[trigger] holds(0u64, s) <==> holds(occ(r.board@), s) by {}
            lemma_ext(0, occ(r.board@));
            assert(r.kings@ =~= seq![64u8, 64]);
        }
        r
    }

    /// What the network sees of a board: `by_color` holds the squares of each side's
    /// pieces, `kings` where the kings stand.
    pub fn build(board: &[Piece; 64], by_color: &[Bitboard; 2], kings: [Square; 2]) -> (r: Snapshot)
        requires
            board_fits(board@),
            forall|c: int, s: int|
                0 <= c < 2 ==> (#[trigger] holds(by_color@[c], s) <==> on_board(s) && board@[s].0
                    < 12 && board@[s].0 / 6 == c),
            forall|s: int|
                on_board(s) && (#[trigger] board@[s]).0 < 12 && board@[s].piece_type()
                    == PieceType::King <==> s == kings@[0] || s == kings@[1],
        ensures
            r.wf(),
            !r.threats_ready,
            r.board@ == board@,
            r.kings@ == kings@,
    {
        let occupied = by_color[0] | by_color[1];
        let mut king_bb: Bitboard = 0;
        proof {
            assert(kings@[0] == kings@[0]);
            assert(board@[kings@[0] as int].0 < 12);
            assert(board@[kings@[1] as int].0 < 12);
        }
        king_bb = king_bb | sq_bb(kings[0]);
        king_bb = king_bb | sq_bb(kings[1]);
        proof {
            assert forall|s: int| #[trigger] holds(occupied, s) <==> holds(occ(board@), s) by {
                assert(holds(by_color@[0], s) <==> on_board(s) && board@[s].0 < 12 && board@[s].0
                    / 6 == 0);
                assert(holds(by_color@[1], s) <==> on_board(s) && board@[s].0 < 12 && board@[s].0
                    / 6 == 1);
                if on_board(s) {
                    assert(board@[s].0 <= 12);
                }
            }
            lemma_ext(occupied, occ(board@));
        }
        Snapshot {
            board: *board,
            threats: [0;64],
            threats_ready: false,
            attackers: occupied & !king_bb,
            occ: occupied,
            kings,
        }
    }

    /// Fills in the attack sets.
    pub fn ensure_threats(&mut self)
        requires
            old(self).wf(),
        ensures
            final(self).wf(),
            final(self).threats_ready,
            *final(self) == (Snapshot {
                threats: final(self).threats,
                threats_ready: true,
                ..*old(self)
            }),
    {
        if self.threats_ready {
            return ;
        }
        let ghost o = *self;
        let ghost b = self.board@;
        let mut s: u8 = 0;
        while s < 64
            invariant
                s <= 64,
                b == o.board@,
                o.wf(),
                *self == (Snapshot { threats: self.threats, ..o }),
                forall|x: int, d: int|
                    0 <= x < s ==> (#[trigger] holds(self.threats@[x], d) <==> threat(b, x, d)),
            decreases 64 - s,
        {
            let pc = self.board[s as usize];
            let mut att: Bitboard = 0;
            if test_bit(self.attackers, s) {
                att = match pc.piece_type() {
                    PieceType::Pawn => pawn_attacks(pc.color(), s),
                    pt => attacks_bb(pt, s, self.occ),
                };
                att = att & self.attackers;
            }
            let ghost before = self.threats@;
            self.threats[s as usize] = att;
            proof {
                assert forall|x: int, d: int| 0 <= x < s + 1 implies (#[trigger] holds(
                    self.threats@[x],
                    d,
                ) <==> threat(b, x, d)) by {
                    if x < s {
                        assert(self.threats@[x] == before[x]);
                        assert(holds(before[x], d) <==> threat(b, x, d));
                    } else {
                        assert(self.threats@[x] == att);
                    }
                }
            }
            s = s + 1;
        }
        self.threats_ready = true;
    }
}

/// Squares hold pieces or nothing, and pawns stand on neither end rank.
pub open spec fn board_fits(b: Board) -> bool {
    &&& b.len() == 64
    &&& forall|s: int| 0 <= s < 64 ==> (#[trigger] b[s]).0 <= 12
    &&& forall|s: int| #[trigger] is_pawn(b, s) ==> 8 <= s < 56
}

/// No piece on any square.
pub open spec fn bare_board(b: Board) -> bool {
    forall|s: int| 0 <= s < 64 ==> (#[trigger] b[s]).0 == 12
}

/// Changes of inputs for one perspective.
pub struct Lists {
    pub psqt_add: Vec<usize>,
    pub psqt_sub: Vec<usize>,
    pub aux_add: Vec<usize>,
    pub aux_sub: Vec<usize>,
}

/// Every input of the list lies within a table of `n`.
pub open spec fn all_below(s: Seq<usize>, n: int) -> bool {
    forall|i: int| 0 <= i < s.len() ==> (#[trigger] s[i]) < n
}

impl Lists {
    pub fn new() -> (r: Lists)
        ensures
            r.psqt_add@.len() == 0,
            r.psqt_sub@.len() == 0,
            r.aux_add@.len() == 0,
            r.aux_sub@.len() == 0,
    {
        Lists {
            psqt_add: Vec::new(),
            psqt_sub: Vec::new(),
            aux_add: Vec::new(),
            aux_sub: Vec::new(),
        }
    }

    pub open spec fn in_range(&self) -> bool {
        &&& all_below(self.psqt_add@, PSQT_FEATURES as int)
        &&& all_below(self.psqt_sub@, PSQT_FEATURES as int)
        &&& all_below(self.aux_add@, AUX_FEATURES as int)
        &&& all_below(self.aux_sub@, AUX_FEATURES as int)
    }

    /// Net weight of the threat and pawn-pair changes.
    pub open spec fn aux_net(&self, w: spec_fn(int) -> int) -> int {
        list_sum(self.aux_add@, w) - list_sum(self.aux_sub@, w)
    }

    pub open spec fn psqt_net(&self, w: spec_fn(int) -> int) -> int {
        list_sum(self.psqt_add@, w) - list_sum(self.psqt_sub@, w)
    }

    pub(crate) fn add_aux(&mut self, f: usize)
        requires
            f < AUX_FEATURES,
            old(self).in_range(),
        ensures
            final(self).in_range(),
            final(self).psqt_add == old(self).psqt_add,
            final(self).psqt_sub == old(self).psqt_sub,
            forall|w: spec_fn(int) -> int| #[trigger]
                final(self).aux_net(w) == old(self).aux_net(w) + w(f as int),
            final(self).aux_sub == old(self).aux_sub,
    {
        proof {
            lemma_pushed(self.aux_add@, f);
        }
        self.aux_add.push(f);
    }

    pub(crate) fn sub_aux(&mut self, f: usize)
        requires
            f < AUX_FEATURES,
            old(self).in_range(),
        ensures
            final(self).in_range(),
            final(self).psqt_add == old(self).psqt_add,
            final(self).psqt_sub == old(self).psqt_sub,
            forall|w: spec_fn(int) -> int| #[trigger]
                final(self).aux_net(w) == old(self).aux_net(w) - w(f as int),
    {
        proof {
            lemma_pushed(self.aux_sub@, f);
        }
        self.aux_sub.push(f);
    }
}

/// The piece on `s` attacks the one on `d` as far as the network has an input for it, and the
/// input lies within the table.
proof fn lemma_threat_in_range(b: Board, v: Perspective, s: Square, d: Square)
    requires
        crate::threats::sizes_match(),
        board_fits(b),
        v.wf(),
        threat(b, s as int, d as int),
    ensures
        seen_threat(b[s as int], s, d, b[d as int], v.p, v.flip) matches Some(f) ==> PP_FEATURES
            <= f < AUX_FEATURES,
{
    let (pa, pt) = (b[s as int], b[d as int]);
    let ra = crate::threats::relative_piece(pa, v.p) as int;
    let rt = crate::threats::relative_piece(pt, v.p) as int;
    let (os, od) = (oriented(v.p, s, v.flip) as int, oriented(v.p, d, v.flip) as int);
    if pa.piece_type() == PieceType::Pawn {
        assert(is_pawn(b, s as int));
    }
    lemma_attack_oriented(pa, s as int, d as int, occ(b), v);
    assert(can_attack(ra, os, od));
    threat_inputs_are_in_range(ra, rt, os, od);
}

/// File and rank of a square as a side sees it.
proof fn lemma_oriented(v: Perspective, s: int)
    requires
        on_board(s),
        v.wf(),
    ensures
        ({
            let o = oriented(v.p, s as Square, v.flip) as int;
            &&& on_board(o)
            &&& file(o) == if v.flip == 0 {
                file(s)
            } else {
                7 - file(s)
            }
            &&& rank(o) == if v.p == Color::White {
                rank(s)
            } else {
                7 - rank(s)
            }
        }),
{
}

/// On the empty board nothing is in the way.
proof fn lemma_empty_reach(pt: PieceType, a: int, b: int, o: u64, c: int, d: int)
    requires
        on_board(a),
        on_board(b),
        on_board(c),
        on_board(d),
        reaches(pt, a, b, o),
        file(a) - file(b) == file(c) - file(d) || file(a) - file(b) == file(d) - file(c),
        rank(a) - rank(b) == rank(c) - rank(d) || rank(a) - rank(b) == rank(d) - rank(c),
    ensures
        reaches(pt, c, d, 0),
{
    assert forall|x: int| #[trigger] crate::geometry::between(c, d, x) implies !holds(0, x) by {}
}

/// An attack is one on the empty board too, and stays one when the board is turned and
/// mirrored.
proof fn lemma_attack_oriented(pa: Piece, s: int, d: int, o: u64, v: Perspective)
    requires
        pa.0 < 12,
        pa.piece_type() != PieceType::King,
        on_board(s),
        on_board(d),
        v.wf(),
        hits(pa.color(), pa.piece_type(), s, d, o),
        pa.piece_type() == PieceType::Pawn ==> 8 <= s < 56,
    ensures
        can_attack(
            crate::threats::relative_piece(pa, v.p) as int,
            oriented(v.p, s as Square, v.flip) as int,
            oriented(v.p, d as Square, v.flip) as int,
        ),
{
    let ra = crate::threats::relative_piece(pa, v.p) as int;
    let (os, od) = (
        oriented(v.p, s as Square, v.flip) as int,
        oriented(v.p, d as Square, v.flip) as int,
    );
    lemma_oriented(v, s);
    lemma_oriented(v, d);
    assert(ra % 6 == pa.0 % 6);
    if pa.piece_type() == PieceType::Pawn {
        assert(ra % 6 == 0);
        assert((ra < 6) == (pa.color() == v.p));
        assert(8 <= os < 56);
    } else {
        assert(ra % 6 != 0);
        assert(PieceType::from_idx((ra % 6) as usize) == pa.piece_type());
        lemma_empty_reach(pa.piece_type(), s, d, o, os, od);
    }
}

/// Rows of the threat sum where nothing changed.
proof fn lemma_same_row(a: Board, b: Board, v: Perspective, s: int, n: int)
    requires
        0 <= s < 64,
        0 <= n <= 64,
        forall|d: int|
            0 <= d < 64 ==> (#[trigger] threat(a, s, d) == threat(b, s, d)) && (threat(a, s, d)
                ==> a[s] == b[s] && a[d] == b[d]),
    ensures
        forall|w: spec_fn(int) -> int| #[trigger]
            threat_total(b, v, w, (64 * s + n) as nat) - threat_total(
                a,
                v,
                w,
                (64 * s + n) as nat,
            ) == threat_total(b, v, w, (64 * s) as nat) - threat_total(a, v, w, (64 * s) as nat),
    decreases n,
{
    if n > 0 {
        lemma_same_row(a, b, v, s, n - 1);
        assert forall|w: spec_fn(int) -> int| #[trigger]
            threat_total(b, v, w, (64 * s + n) as nat) - threat_total(
                a,
                v,
                w,
                (64 * s + n) as nat,
            ) == threat_total(b, v, w, (64 * s) as nat) - threat_total(
            a,
            v,
            w,
            (64 * s) as nat,
        ) by {
            let k = 64 * s + n - 1;
            assert(k / 64 == s && k % 64 == n - 1);
            assert(threat(a, s, n - 1) == threat(b, s, n - 1));
            assert(threat_part(a, v, w, k) == threat_part(b, v, w, k));
            assert(threat_total(b, v, w, (k + 1) as nat) == threat_total(b, v, w, k as nat)
                + threat_part(b, v, w, k));
            assert(threat_total(a, v, w, (k + 1) as nat) == threat_total(a, v, w, k as nat)
                + threat_part(a, v, w, k));
            assert(threat_total(b, v, w, (64 * s + (n - 1)) as nat) - threat_total(
                a,
                v,
                w,
                (64 * s + (n - 1)) as nat,
            ) == threat_total(b, v, w, (64 * s) as nat) - threat_total(a, v, w, (64 * s) as nat));
        }
    }
}

/// Squares whose piece differs between snapshots.
pub fn board_diff(was: &Snapshot, now: &Snapshot) -> (r: Bitboard)
    ensures
        forall|s: int| #[trigger]
            holds(r, s) <==> on_board(s) && was.board@[s] != now.board@[s],
{
    let mut r: Bitboard = 0;
    let mut s: u8 = 0;
    while s < 64
        invariant
            s <= 64,
            forall|x: int| #[trigger]
                holds(r, x) <==> 0 <= x < s && was.board@[x] != now.board@[x],
        decreases 64 - s,
    {
        if was.board[s as usize] != now.board[s as usize] {
            r = r | sq_bb(s);
        }
        s = s + 1;
    }
    r
}

/// Threat changes of one pair of squares.
fn threat_change(
    tables: &ThreatTables,
    was: &Snapshot,
    now: &Snapshot,
    v: Perspective,
    s: u8,
    d: u8,
    lists: &mut Lists,
)
    requires
        tables.wf(),
        was.wf(),
        now.wf(),
        was.threats_ready,
        now.threats_ready,
        v.wf(),
        s < 64,
        d < 64,
        old(lists).in_range(),
    ensures
        final(lists).in_range(),
        final(lists).psqt_add == old(lists).psqt_add,
        final(lists).psqt_sub == old(lists).psqt_sub,
        forall|w: spec_fn(int) -> int| #[trigger]
            final(lists).aux_net(w) == old(lists).aux_net(w) + threat_part(
                now.board@,
                v,
                w,
                64 * s + d,
            ) - threat_part(was.board@, v, w, 64 * s + d),
        bare_board(was.board@) ==> final(lists).aux_sub == old(lists).aux_sub,
{
    let ghost (a, b) = (was.board@, now.board@);
    let gone = test_bit(was.threats[s as usize], d);
    let fresh = test_bit(now.threats[s as usize], d);
    proof {
        let k: int = 64 * s + d;
        assert(k / 64 == s && k % 64 == d);
        assert(gone == threat(a, s as int, d as int));
        assert(fresh == threat(b, s as int, d as int));
    }
    let same = gone && fresh && was.board[s as usize] == now.board[s as usize]
        && was.board[d as usize] == now.board[d as usize];
    if same {
        return ;
    }
    if gone {
        proof {
            lemma_threat_in_range(a, v, s, d);
        }
        if let Some(f) = tables.threat_feature(
            was.board[s as usize],
            s,
            d,
            was.board[d as usize],
            v.p,
            v.flip,
        ) {
            lists.sub_aux(f);
        }
    }
    if fresh {
        proof {
            lemma_threat_in_range(b, v, s, d);
        }
        if let Some(f) = tables.threat_feature(
            now.board[s as usize],
            s,
            d,
            now.board[d as usize],
            v.p,
            v.flip,
        ) {
            lists.add_aux(f);
        }
    }
}

/// Threat changes between two snapshots, from their attack sets: those of attackers whose
/// piece changed, targets that appeared or vanished as lines opened or closed, and kept
/// targets whose piece changed.
#[verifier::rlimit(40)]
fn threat_changes(
    tables: &ThreatTables,
    was: &Snapshot,
    now: &Snapshot,
    changed: Bitboard,
    v: Perspective,
    lists: &mut Lists,
)
    requires
        tables.wf(),
        was.wf(),
        now.wf(),
        was.threats_ready,
        now.threats_ready,
        v.wf(),
        old(lists).in_range(),
        forall|s: int| #[trigger]
            holds(changed, s) <==> on_board(s) && was.board@[s] != now.board@[s],
    ensures
        final(lists).in_range(),
        final(lists).psqt_add == old(lists).psqt_add,
        final(lists).psqt_sub == old(lists).psqt_sub,
        forall|w: spec_fn(int) -> int| #[trigger]
            final(lists).aux_net(w) == old(lists).aux_net(w) + threat_total(
                now.board@,
                v,
                w,
                4096,
            ) - threat_total(was.board@, v, w, 4096),
        bare_board(was.board@) ==> final(lists).aux_sub == old(lists).aux_sub,
{
    let ghost (a, b) = (was.board@, now.board@);
    let ghost l0 = *lists;
    let mut s: u8 = 0;
    while s < 64
        invariant
            s <= 64,
            (a, b) == (was.board@, now.board@),
            l0 == *old(lists),
            tables.wf(),
            was.wf(),
            now.wf(),
            was.threats_ready,
            now.threats_ready,
            v.wf(),
            lists.in_range(),
            lists.psqt_add == l0.psqt_add,
            lists.psqt_sub == l0.psqt_sub,
            bare_board(a) ==> lists.aux_sub == l0.aux_sub,
            forall|x: int| #[trigger] holds(changed, x) <==> on_board(x) && a[x] != b[x],
            forall|w: spec_fn(int) -> int| #[trigger]
                lists.aux_net(w) == l0.aux_net(w) + threat_total(b, v, w, (64 * s) as nat)
                    - threat_total(a, v, w, (64 * s) as nat),
        decreases 64 - s,
    {
        let row = was.threats[s as usize];
        let meets = row & changed;
        if was.board[s as usize] == now.board[s as usize] && row == now.threats[s as usize] && meets
            == 0 {
            proof {
                lemma_empty(meets);
                assert forall|d: int| 0 <= d < 64 implies (#[trigger] threat(a, s as int, d)
                    == threat(b, s as int, d)) && (threat(a, s as int, d) ==> a[s as int]
                    == b[s as int] && a[d] == b[d]) by {
                    assert(holds(was.threats@[s as int], d) <==> threat(a, s as int, d));
                    assert(holds(now.threats@[s as int], d) <==> threat(b, s as int, d));
                    assert(!holds(meets, d));
                    assert(holds(changed, d) <==> a[d] != b[d]);
                }
                lemma_same_row(a, b, v, s as int, 64);
                assert forall|w: spec_fn(int) -> int| #[trigger]
                    lists.aux_net(w) == l0.aux_net(w) + threat_total(b, v, w, (64 * (s + 1)) as nat)
                        - threat_total(a, v, w, (64 * (s + 1)) as nat) by {
                    let n: int = 64;
                    assert(threat_total(b, v, w, (64 * s + n) as nat) - threat_total(
                        a,
                        v,
                        w,
                        (64 * s + n) as nat,
                    ) == threat_total(b, v, w, (64 * s) as nat) - threat_total(
                        a,
                        v,
                        w,
                        (64 * s) as nat,
                    ));
                }
            }
        } else {
            let mut d: u8 = 0;
            while d < 64
                invariant
                    s < 64,
                    d <= 64,
                    (a, b) == (was.board@, now.board@),
                    tables.wf(),
                    was.wf(),
                    now.wf(),
                    was.threats_ready,
                    now.threats_ready,
                    v.wf(),
                    lists.in_range(),
                    lists.psqt_add == l0.psqt_add,
                    lists.psqt_sub == l0.psqt_sub,
                    bare_board(a) ==> lists.aux_sub == l0.aux_sub,
                    forall|w: spec_fn(int) -> int| #[trigger]
                        lists.aux_net(w) == l0.aux_net(w) + threat_total(
                            b,
                            v,
                            w,
                            (64 * s + d) as nat,
                        ) - threat_total(a, v, w, (64 * s + d) as nat),
                decreases 64 - d,
            {
                let ghost before = *lists;
                threat_change(tables, was, now, v, s, d, lists);
                proof {
                    assert forall|w: spec_fn(int) -> int| #[trigger]
                        lists.aux_net(w) == l0.aux_net(w) + threat_total(
                            b,
                            v,
                            w,
                            (64 * s + d + 1) as nat,
                        ) - threat_total(a, v, w, (64 * s + d + 1) as nat) by {
                        let k: int = 64 * s + d;
                        assert(before.aux_net(w) == l0.aux_net(w) + threat_total(b, v, w, k as nat)
                            - threat_total(a, v, w, k as nat));
                        assert(threat_total(b, v, w, (k + 1) as nat) == threat_total(
                            b,
                            v,
                            w,
                            k as nat,
                        ) + threat_part(b, v, w, k));
                        assert(threat_total(a, v, w, (k + 1) as nat) == threat_total(
                            a,
                            v,
                            w,
                            k as nat,
                        ) + threat_part(a, v, w, k));
                    }
                }
                d = d + 1;
            }
        }
        s = s + 1;
    }
}

/// The piece on `s` as a pawn's colour, where it is a pawn.
fn pawn_on(b: &[Piece; 64], s: u8) -> (r: Option<Color>)
    requires
        s < 64,
    ensures
        match r {
            Some(c) => is_pawn(b@, s as int) && c == b@[s as int].color(),
            None => !is_pawn(b@, s as int),
        },
{
    let pc = b[s as usize];
    if pc.0 < 12 && pc.piece_type() == PieceType::Pawn {
        Some(pc.color())
    } else {
        None
    }
}

/// Number of the pair of pawns on two squares, where there is one.
fn pair_input(b: &[Piece; 64], v: Perspective, s: u8, d: u8) -> (r: Option<usize>)
    requires
        board_fits(b@),
        v.wf(),
        s < 64,
        d < 64,
    ensures
        r is Some <==> paired(b@, s as int, d as int),
        r matches Some(f) ==> f < PP_FEATURES && f == pair_number(
            pawn_place(b@[s as int].color(), s, v.p, v.flip),
            pawn_place(b@[d as int].color(), d, v.p, v.flip),
        ),
{
    if s >= d {
        return None;
    }
    let (fs, fd) = (s % 8, d % 8);
    if fs > fd + 1 || fd > fs + 1 {
        return None;
    }
    match (pawn_on(b, s), pawn_on(b, d)) {
        (Some(a), Some(c)) => Some(pp_feature(a, s, c, d, v.p, v.flip)),
        _ => None,
    }
}

/// Rows of the pair sum without pawns.
proof fn lemma_bare_row(b: Board, v: Perspective, s: int, n: int)
    requires
        0 <= s < 64,
        0 <= n <= 64,
        !is_pawn(b, s),
    ensures
        forall|w: spec_fn(int) -> int| #[trigger]
            pair_total(b, v, w, (64 * s + n) as nat) == pair_total(b, v, w, (64 * s) as nat),
    decreases n,
{
    if n > 0 {
        lemma_bare_row(b, v, s, n - 1);
        assert forall|w: spec_fn(int) -> int| #[trigger]
            pair_total(b, v, w, (64 * s + n) as nat) == pair_total(b, v, w, (64 * s) as nat) by {
            let k = 64 * s + n - 1;
            assert(k / 64 == s && k % 64 == n - 1);
            assert(pair_part(b, v, w, k) == 0);
            assert(pair_total(b, v, w, (k + 1) as nat) == pair_total(b, v, w, k as nat)
                + pair_part(b, v, w, k));
            assert(pair_total(b, v, w, (64 * s + (n - 1)) as nat) == pair_total(
                b,
                v,
                w,
                (64 * s) as nat,
            ));
        }
    }
}

/// Pawn pairs that were dissolved or formed.
#[verifier::rlimit(40)]
pub(crate) fn pawn_pair_changes(was: &Snapshot, now: &Snapshot, v: Perspective, lists: &mut Lists)
    requires
        was.wf(),
        now.wf(),
        v.wf(),
        old(lists).in_range(),
    ensures
        final(lists).in_range(),
        final(lists).psqt_add == old(lists).psqt_add,
        final(lists).psqt_sub == old(lists).psqt_sub,
        forall|w: spec_fn(int) -> int| #[trigger]
            final(lists).aux_net(w) == old(lists).aux_net(w) + pair_total(now.board@, v, w, 4096)
                - pair_total(was.board@, v, w, 4096),
        bare_board(was.board@) ==> final(lists).aux_sub == old(lists).aux_sub,
{
    let ghost (a, b) = (was.board@, now.board@);
    let ghost l0 = *lists;
    let mut s: u8 = 0;
    while s < 64
        invariant
            s <= 64,
            (a, b) == (was.board@, now.board@),
            l0 == *old(lists),
            was.wf(),
            now.wf(),
            v.wf(),
            lists.in_range(),
            lists.psqt_add == l0.psqt_add,
            lists.psqt_sub == l0.psqt_sub,
            bare_board(a) ==> lists.aux_sub == l0.aux_sub,
            forall|w: spec_fn(int) -> int| #[trigger]
                lists.aux_net(w) == l0.aux_net(w) + pair_total(b, v, w, (64 * s) as nat)
                    - pair_total(a, v, w, (64 * s) as nat),
        decreases 64 - s,
    {
        if pawn_on(&was.board, s).is_none() && pawn_on(&now.board, s).is_none() {
            proof {
                lemma_bare_row(a, v, s as int, 64);
                lemma_bare_row(b, v, s as int, 64);
                assert forall|w: spec_fn(int) -> int| #[trigger]
                    lists.aux_net(w) == l0.aux_net(w) + pair_total(b, v, w, (64 * (s + 1)) as nat)
                        - pair_total(a, v, w, (64 * (s + 1)) as nat) by {
                    let n: int = 64;
                    assert(pair_total(b, v, w, (64 * s + n) as nat) == pair_total(
                        b,
                        v,
                        w,
                        (64 * s) as nat,
                    ));
                    assert(pair_total(a, v, w, (64 * s + n) as nat) == pair_total(
                        a,
                        v,
                        w,
                        (64 * s) as nat,
                    ));
                }
            }
        } else {
            let mut d: u8 = 0;
            while d < 64
                invariant
                    s < 64,
                    d <= 64,
                    (a, b) == (was.board@, now.board@),
                    was.wf(),
                    now.wf(),
                    v.wf(),
                    lists.in_range(),
                    lists.psqt_add == l0.psqt_add,
                    lists.psqt_sub == l0.psqt_sub,
                    bare_board(a) ==> lists.aux_sub == l0.aux_sub,
                    forall|w: spec_fn(int) -> int| #[trigger]
                        lists.aux_net(w) == l0.aux_net(w) + pair_total(b, v, w, (64 * s + d) as nat)
                            - pair_total(a, v, w, (64 * s + d) as nat),
                decreases 64 - d,
            {
                let ghost before = *lists;
                pair_change(was, now, v, s, d, lists);
                proof {
                    assert forall|w: spec_fn(int) -> int| #[trigger]
                        lists.aux_net(w) == l0.aux_net(w) + pair_total(
                            b,
                            v,
                            w,
                            (64 * s + d + 1) as nat,
                        ) - pair_total(a, v, w, (64 * s + d + 1) as nat) by {
                        let k: int = 64 * s + d;
                        assert(before.aux_net(w) == l0.aux_net(w) + pair_total(b, v, w, k as nat)
                            - pair_total(a, v, w, k as nat));
                        assert(pair_total(b, v, w, (k + 1) as nat) == pair_total(b, v, w, k as nat)
                            + pair_part(b, v, w, k));
                        assert(pair_total(a, v, w, (k + 1) as nat) == pair_total(a, v, w, k as nat)
                            + pair_part(a, v, w, k));
                    }
                }
                d = d + 1;
            }
        }
        s = s + 1;
    }
}

/// Pawn-pair changes of one pair of squares.
fn pair_change(was: &Snapshot, now: &Snapshot, v: Perspective, s: u8, d: u8, lists: &mut Lists)
    requires
        was.wf(),
        now.wf(),
        v.wf(),
        s < 64,
        d < 64,
        old(lists).in_range(),
    ensures
        final(lists).in_range(),
        final(lists).psqt_add == old(lists).psqt_add,
        final(lists).psqt_sub == old(lists).psqt_sub,
        forall|w: spec_fn(int) -> int| #[trigger]
            final(lists).aux_net(w) == old(lists).aux_net(w) + pair_part(
                now.board@,
                v,
                w,
                64 * s + d,
            ) - pair_part(was.board@, v, w, 64 * s + d),
        bare_board(was.board@) ==> final(lists).aux_sub == old(lists).aux_sub,
{
    proof {
        let k: int = 64 * s + d;
        assert(k / 64 == s && k % 64 == d);
    }
    let gone = pair_input(&was.board, v, s, d);
    let fresh = pair_input(&now.board, v, s, d);
    if let (Some(f), Some(g)) = (gone, fresh) {
        if f == g {
            return ;
        }
    }
    if let Some(f) = gone {
        lists.sub_aux(f);
    }
    if let Some(g) = fresh {
        lists.add_aux(g);
    }
}

/// Piece-square changes on the squares whose piece changed.
pub(crate) fn psqt_changes(was: &Snapshot, now: &Snapshot, v: Perspective, lists: &mut Lists)
    requires
        was.wf(),
        now.wf(),
        v.wf(),
        old(lists).in_range(),
    ensures
        final(lists).in_range(),
        final(lists).aux_add == old(lists).aux_add,
        final(lists).aux_sub == old(lists).aux_sub,
        forall|w: spec_fn(int) -> int| #[trigger]
            final(lists).psqt_net(w) == old(lists).psqt_net(w) + psqt_total(now.board@, v, w, 64)
                - psqt_total(was.board@, v, w, 64),
        bare_board(was.board@) ==> final(lists).psqt_sub == old(lists).psqt_sub,
{
    let ghost (a, b) = (was.board@, now.board@);
    let ghost l0 = *lists;
    let mut s: u8 = 0;
    while s < 64
        invariant
            s <= 64,
            (a, b) == (was.board@, now.board@),
            l0 == *old(lists),
            was.wf(),
            now.wf(),
            v.wf(),
            lists.in_range(),
            lists.aux_add == l0.aux_add,
            lists.aux_sub == l0.aux_sub,
            bare_board(a) ==> lists.psqt_sub == l0.psqt_sub,
            forall|w: spec_fn(int) -> int| #[trigger]
                lists.psqt_net(w) == l0.psqt_net(w) + psqt_total(b, v, w, s as nat) - psqt_total(
                    a,
                    v,
                    w,
                    s as nat,
                ),
        decreases 64 - s,
    {
        let ghost before = *lists;
        let (o, n) = (was.board[s as usize], now.board[s as usize]);
        if o != n {
            if o.0 < 12 {
                let f = psqt_feature(v.p, v.bucket, v.flip, o, s);
                proof {
                    lemma_pushed(lists.psqt_sub@, f);
                }
                lists.psqt_sub.push(f);
            }
            if n.0 < 12 {
                let f = psqt_feature(v.p, v.bucket, v.flip, n, s);
                proof {
                    lemma_pushed(lists.psqt_add@, f);
                }
                lists.psqt_add.push(f);
            }
        }
        proof {
            assert forall|w: spec_fn(int) -> int| #[trigger]
                lists.psqt_net(w) == l0.psqt_net(w) + psqt_total(b, v, w, (s + 1) as nat)
                    - psqt_total(a, v, w, (s + 1) as nat) by {
                assert(before.psqt_net(w) == l0.psqt_net(w) + psqt_total(b, v, w, s as nat)
                    - psqt_total(a, v, w, s as nat));
                assert(lists.psqt_net(w) == before.psqt_net(w) + psqt_part(b, v, w, s as int)
                    - psqt_part(a, v, w, s as int));
            }
        }
        s = s + 1;
    }
}

/// Changes of inputs between two snapshots, as one side sees them: under any weights, what
/// is added less what is taken away is the difference of the totals.
pub fn compute(tables: &ThreatTables, was: &Snapshot, now: &Snapshot, v: Perspective) -> (r: Lists)
    requires
        tables.wf(),
        was.wf(),
        now.wf(),
        was.threats_ready,
        now.threats_ready,
        v.wf(),
    ensures
        r.in_range(),
        forall|w: spec_fn(int) -> int| #[trigger]
            r.aux_net(w) == aux_total(now.board@, v, w) - aux_total(was.board@, v, w),
        forall|w: spec_fn(int) -> int| #[trigger]
            r.psqt_net(w) == psqt_total(now.board@, v, w, 64) - psqt_total(was.board@, v, w, 64),
        bare_board(was.board@) ==> r.psqt_sub@.len() == 0 && r.aux_sub@.len() == 0,
{
    let mut lists = Lists::new();
    let ghost l0 = lists;
    let changed = board_diff(was, now);
    psqt_changes(was, now, v, &mut lists);
    let ghost l1 = lists;
    threat_changes(tables, was, now, changed, v, &mut lists);
    let ghost l2 = lists;
    pawn_pair_changes(was, now, v, &mut lists);
    proof {
        assert forall|w: spec_fn(int) -> int| #[trigger]
            lists.aux_net(w) == aux_total(now.board@, v, w) - aux_total(was.board@, v, w) by {
            assert(l0.aux_net(w) == 0);
            assert(l1.aux_net(w) == 0);
            assert(l2.aux_net(w) == threat_total(now.board@, v, w, 4096) - threat_total(
                was.board@,
                v,
                w,
                4096,
            ));
        }
        assert forall|w: spec_fn(int) -> int| #[trigger]
            lists.psqt_net(w) == psqt_total(now.board@, v, w, 64) - psqt_total(
                was.board@,
                v,
                w,
                64,
            ) by {
            assert(l0.psqt_net(w) == 0);
            assert(l1.psqt_net(w) == psqt_total(now.board@, v, w, 64) - psqt_total(
                was.board@,
                v,
                w,
                64,
            ));
        }
    }
    lists
}

} // verus!
