//! Move-ordering histories and evaluation corrections, learned as the search goes.

use vstd::prelude::*;

use crate::arith::{clamp, clamped, div_toward_zero, quot};
use crate::params::{
    CORRHIST_GRAIN, CORRHIST_LIMIT, CORRHIST_WEIGHT_SCALE, HISTORY_BONUS_BASE, HISTORY_BONUS_CAP, HISTORY_BONUS_SUB,
    HISTORY_MAX, LASTMOVE_CORRHIST_SIZE, LOW_PLY_HISTORY_SIZE,
};
use crate::types::{Color, Move, Piece, PieceType};

verus! {

/// Continuation-history key of an ancestor move: (in_check, capture, piece, to).
pub type ContKey = (usize, usize, usize, usize);

/// The key addresses a table.
pub open spec fn key_ok(k: ContKey) -> bool {
    k.0 < 2 && k.1 < 2 && k.2 < 12 && k.3 < 64
}

/// The bonus as it is applied.
pub open spec fn applied_bonus(bonus: int) -> int {
    clamped(bonus, -HISTORY_MAX, HISTORY_MAX as int)
}

/// Gravity update: pulls the entry toward the bonus, saturating at the maximum.
pub open spec fn gravity_value(entry: int, bonus: int) -> int {
    let b = applied_bonus(bonus);
    entry + b - quot(
        entry * (if b < 0 {
            -b
        } else {
            b
        }),
        HISTORY_MAX as int,
    )
}

/// An updated entry stays within the maximum.
pub proof fn gravity_is_bounded(entry: int, bonus: int)
    requires
        -HISTORY_MAX <= entry <= HISTORY_MAX,
    ensures
        -HISTORY_MAX <= gravity_value(entry, bonus) <= HISTORY_MAX,
{
    let b = applied_bonus(bonus);
    let a = if b < 0 {
        -b
    } else {
        b
    };
    if entry >= 0 {
        let q = (entry * a) / 16384;
        assert(entry * a >= 0) by (nonlinear_arith)
            requires
                entry >= 0,
                a >= 0,
        ;
        assert(0 <= q <= entry && entry - q <= 16384 - a) by (nonlinear_arith)
            requires
                0 <= entry <= 16384,
                0 <= a <= 16384,
                q == (entry * a) / 16384,
        ;
    } else {
        let n = -entry;
        let q = (n * a) / 16384;
        assert(-(entry * a) == n * a) by (nonlinear_arith)
            requires
                n == -entry,
        ;
        assert(entry * a <= 0) by (nonlinear_arith)
            requires
                entry <= 0,
                a >= 0,
        ;
        assert(0 <= q <= n && n - q <= 16384 - a) by (nonlinear_arith)
            requires
                0 <= n <= 16384,
                0 <= a <= 16384,
                q == (n * a) / 16384,
        ;
    }
}

/// The updated entry.
pub fn gravity(entry: i32, bonus: i32) -> (r: i32)
    requires
        -HISTORY_MAX <= entry <= HISTORY_MAX,
    ensures
        r == gravity_value(entry as int, bonus as int),
        -HISTORY_MAX <= r <= HISTORY_MAX,
{
    let b = clamp(bonus as i64, -HISTORY_MAX, HISTORY_MAX);
    let a: i32 = if b < 0 {
        -b
    } else {
        b
    };
    proof {
        gravity_is_bounded(entry as int, bonus as int);
        assert(-0x1000_0000 <= entry * a <= 0x1000_0000) by (nonlinear_arith)
            requires
                -16384 <= entry <= 16384,
                0 <= a <= 16384,
        ;
    }
    let q = div_toward_zero(entry as i64 * a as i64, HISTORY_MAX as i64);
    (entry as i64 + b as i64 - q) as i32
}

/// Every entry within the maximum.
pub open spec fn history_ok(t: Seq<i32>, n: int) -> bool {
    t.len() == n && forall|i: int|
        0 <= i < n ==> -HISTORY_MAX <= #[trigger] t[i] <= HISTORY_MAX
}

/// Every entry within the maximum.
pub open spec fn small_history_ok(t: Seq<i16>, n: int) -> bool {
    t.len() == n && forall|i: int|
        0 <= i < n ==> -HISTORY_MAX <= #[trigger] t[i] <= HISTORY_MAX
}

/// Every correction within its limit.
pub open spec fn corrections_ok(t: Seq<i32>, n: int) -> bool {
    t.len() == n && forall|i: int|
        0 <= i < n ==> -CORRHIST_LIMIT <= #[trigger] t[i] <= CORRHIST_LIMIT
}

/// Applies a bonus to one entry.
pub fn bump(t: &mut Vec<i32>, i: usize, bonus: i32)
    requires
        history_ok(old(t)@, old(t)@.len() as int),
        i < old(t)@.len(),
    ensures
        final(t)@ == old(t)@.update(
            i as int,
            gravity_value(old(t)@[i as int] as int, bonus as int) as i32,
        ),
        history_ok(final(t)@, old(t)@.len() as int),
{
    let v = gravity(t[i], bonus);
    t.set(i, v);
}

/// Applies a bonus to one entry.
pub fn bump_small(t: &mut Vec<i16>, i: usize, bonus: i32)
    requires
        small_history_ok(old(t)@, old(t)@.len() as int),
        i < old(t)@.len(),
    ensures
        final(t)@ == old(t)@.update(
            i as int,
            gravity_value(old(t)@[i as int] as int, bonus as int) as i16,
        ),
        small_history_ok(final(t)@, old(t)@.len() as int),
{
    let v = gravity(t[i] as i32, bonus);
    t.set(i, v as i16);
}

/// A correction blended with a new observation of weight `w` out of 256.
pub open spec fn blended(entry: int, scaled: int, w: int) -> int {
    clamped(
        quot(entry * (CORRHIST_WEIGHT_SCALE - w) + scaled * w, CORRHIST_WEIGHT_SCALE as int),
        -CORRHIST_LIMIT,
        CORRHIST_LIMIT as int,
    )
}

/// Blends an observation into one correction.
pub fn blend(t: &mut Vec<i32>, i: usize, scaled: i64, w: i64)
    requires
        corrections_ok(old(t)@, old(t)@.len() as int),
        i < old(t)@.len(),
        -0x2000_0000 <= scaled <= 0x2000_0000,
        1 <= w <= 128,
    ensures
        final(t)@ == old(t)@.update(
            i as int,
            blended(old(t)@[i as int] as int, scaled as int, w as int) as i32,
        ),
        corrections_ok(final(t)@, old(t)@.len() as int),
{
    let entry = t[i] as i64;
    let rest: i64 = CORRHIST_WEIGHT_SCALE as i64 - w;
    proof {
        assert(-0x100_0000 <= entry * rest <= 0x100_0000) by (nonlinear_arith)
            requires
                -32768 <= entry <= 32768,
                0 <= rest <= 256,
        ;
        assert(-0x10_0000_0000 <= scaled * w <= 0x10_0000_0000) by (nonlinear_arith)
            requires
                -0x2000_0000 <= scaled <= 0x2000_0000,
                1 <= w <= 128,
        ;
    }
    let v = div_toward_zero(entry * rest + scaled * w, CORRHIST_WEIGHT_SCALE as i64);
    t.set(i, clamp(v, -CORRHIST_LIMIT, CORRHIST_LIMIT));
}

/// Bonus for a cutoff at `depth`.
#[verifier::allow_in_spec]
pub fn history_bonus(depth: i32) -> i32
    requires
        -1_000_000 <= depth <= 1_000_000,
    returns
        (if 300 * depth - 250 < 1536 {
            (300 * depth - 250) as i32
        } else {
            1536i32
        }),
{
    let b: i32 = HISTORY_BONUS_BASE * depth - HISTORY_BONUS_SUB;
    if b < HISTORY_BONUS_CAP {
        b
    } else {
        HISTORY_BONUS_CAP
    }
}

fn zeros(n: usize) -> (r: Vec<i32>)
    ensures
        r@.len() == n,
        forall|i: int| 0 <= i < n ==> #[trigger] r@[i] == 0,
{
    let mut v: Vec<i32> = Vec::with_capacity(n);
    let mut i: usize = 0;
    while i < n
        invariant
            i <= n,
            v@.len() == i,
            forall|j: int| 0 <= j < i ==> #[trigger] v@[j] == 0,
        decreases n - i,
    {
        v.push(0);
        i += 1;
    }
    v
}

fn small_zeros(n: usize) -> (r: Vec<i16>)
    ensures
        r@.len() == n,
        forall|i: int| 0 <= i < n ==> #[trigger] r@[i] == 0,
{
    let mut v: Vec<i16> = Vec::with_capacity(n);
    let mut i: usize = 0;
    while i < n
        invariant
            i <= n,
            v@.len() == i,
            forall|j: int| 0 <= j < i ==> #[trigger] v@[j] == 0,
        decreases n - i,
    {
        v.push(0);
        i += 1;
    }
    v
}

/// Everything learned about moves and evaluations.
pub struct Histories {
    /// Butterfly history [color][from*64+to].
    pub main: Vec<i32>,
    /// Capture history [piece][to][captured type].
    pub capture: Vec<i32>,
    /// Continuation history [in_check][capture][prev piece][prev to][piece][to].
    pub cont: Vec<i16>,
    /// Pawn-structure history [pawn key][piece][to].
    pub pawn: Vec<i16>,
    /// Low-ply history [ply][from*64+to].
    pub low_ply: Vec<i32>,
    /// Refutation of the previous move, [prev piece][prev to].
    pub countermoves: Vec<Move>,
    pub nonpawn_corr: Vec<i32>,
    pub minor_corr: Vec<i32>,
    pub material_corr: Vec<i32>,
    pub lastmove_corr: Vec<i32>,
    /// Running reliability of table moves (positive: they tend to be best).
    pub tt_move_history: i32,
}

/// The tables of the histories.
#[verifier::ext_equal]
pub struct Lore {
    pub main: Seq<i32>,
    pub capture: Seq<i32>,
    pub cont: Seq<i16>,
    pub pawn: Seq<i16>,
    pub low_ply: Seq<i32>,
    pub countermoves: Seq<Move>,
    pub nonpawn_corr: Seq<i32>,
    pub minor_corr: Seq<i32>,
    pub material_corr: Seq<i32>,
    pub lastmove_corr: Seq<i32>,
    pub tt_move_history: i32,
}

/// A table after a bonus to one entry.
pub open spec fn bumped(t: Seq<i32>, i: int, bonus: int) -> Seq<i32> {
    t.update(i, gravity_value(t[i] as int, bonus) as i32)
}

/// A table of corrections after one entry has learned.
pub open spec fn blended_at(t: Seq<i32>, i: int, scaled: int, w: int) -> Seq<i32> {
    t.update(i, blended(t[i] as int, scaled, w) as i32)
}

impl Lore {
    /// After a bonus to the butterfly history of a move.
    pub open spec fn with_main(self, c: Color, m: Move, bonus: int) -> Lore {
        Lore { main: bumped(self.main, main_index(c, m.from_to()) as int, bonus), ..self }
    }

    /// After a bonus to the pawn-structure history of `pc` going to `to`.
    pub open spec fn with_pawn(self, key: u64, pc: Piece, to: usize, bonus: int) -> Lore {
        let i = pawn_index(key, pc, to) as int;
        Lore {
            pawn: self.pawn.update(i, gravity_value(self.pawn[i] as int, bonus) as i16),
            ..self
        }
    }

    /// After a bonus to the capture history of `pc` taking on `to`.
    pub open spec fn with_capture(self, pc: Piece, to: usize, cap: PieceType, bonus: int) -> Lore {
        Lore { capture: bumped(self.capture, capture_index(pc, to, cap) as int, bonus), ..self }
    }

    /// After a bonus to the low-ply history of a move, if the ply is low.
    pub open spec fn with_low_ply(self, ply: usize, m: Move, bonus: int) -> Lore {
        if ply < LOW_PLY_HISTORY_SIZE {
            Lore { low_ply: bumped(self.low_ply, ply * 4096 + m.from_to(), bonus), ..self }
        } else {
            self
        }
    }

    /// After a move was found to answer `pc` going to `to`.
    pub open spec fn with_counter(self, pc: Piece, to: usize, m: Move) -> Lore {
        Lore {
            countermoves: self.countermoves.update(counter_index(pc, to) as int, m),
            ..self
        }
    }

    /// After one more observation of the table's moves.
    pub open spec fn with_reliability(self, delta: int) -> Lore {
        Lore {
            tt_move_history: reliability_after(self.tt_move_history as int, delta) as i32,
            ..self
        }
    }

    /// After the corrections have learned a difference with weight `w`, that of the last
    /// move with no more than half the greatest.
    pub open spec fn blend_in(
        self,
        nonpawn: int,
        material: int,
        minor: int,
        last: int,
        difference: int,
        w: int,
    ) -> Lore {
        let scaled = difference * CORRHIST_GRAIN;
        Lore {
            nonpawn_corr: blended_at(self.nonpawn_corr, nonpawn, scaled, w),
            material_corr: blended_at(self.material_corr, material, scaled, w),
            minor_corr: blended_at(self.minor_corr, minor, scaled, w),
            lastmove_corr: blended_at(
                self.lastmove_corr,
                last,
                scaled,
                if w < 64 {
                    w
                } else {
                    64
                },
            ),
            ..self
        }
    }
}

pub const MAIN_SIZE: usize = 8192;

pub const CAPTURE_SIZE: usize = 4608;

pub const CONT_SIZE: usize = 2359296;

pub const PAWN_SIZE: usize = 1572864;

pub const LOW_PLY_SIZE: usize = 16384;

pub const COUNTER_SIZE: usize = 768;

pub const CORRECTION_SIZE: usize = 32768;

/// Bound of the reliability of table moves.
pub const TT_MOVE_HISTORY_MAX: i32 = 8192;

#[verifier::allow_in_spec]
pub fn main_index(c: Color, from_to: usize) -> usize
    requires
        from_to < 4096,
    returns
        (c.idx() * 4096 + from_to) as usize,
{
    c.idx() * 4096 + from_to
}

#[verifier::allow_in_spec]
pub fn capture_index(pc: Piece, to: usize, captured: PieceType) -> usize
    requires
        pc.0 < 12,
        to < 64,
    returns
        ((pc.0 * 64 + to) * 6 + captured.idx()) as usize,
{
    (pc.0 as usize * 64 + to) * 6 + captured.idx()
}

#[verifier::allow_in_spec]
pub fn cont_index(k: ContKey, pc: Piece, to: usize) -> usize
    requires
        key_ok(k),
        pc.0 < 12,
        to < 64,
    returns
        (((((k.0 * 2 + k.1) * 12 + k.2) * 64 + k.3) * 12 + pc.0) * 64 + to) as usize,
{
    ((((k.0 * 2 + k.1) * 12 + k.2) * 64 + k.3) * 12 + pc.0 as usize) * 64 + to
}

#[verifier::allow_in_spec]
pub fn pawn_index(pawn_key: u64, pc: Piece, to: usize) -> usize
    requires
        pc.0 < 12,
        to < 64,
    returns
        ((pawn_key % 2048 * 12 + pc.0) * 64 + to) as usize,
{
    ((pawn_key % 2048) as usize * 12 + pc.0 as usize) * 64 + to
}

#[verifier::allow_in_spec]
pub fn counter_index(pc: Piece, to: usize) -> usize
    requires
        pc.0 < 12,
        to < 64,
    returns
        (pc.0 * 64 + to) as usize,
{
    pc.0 as usize * 64 + to
}

/// Slot of a side's correction for a key.
#[verifier::allow_in_spec]
pub fn correction_index(c: Color, key: u64) -> usize
    returns
        (c.idx() * 16384 + key % 16384) as usize,
{
    c.idx() * 16384 + (key % 16384) as usize
}

impl Histories {
    pub open spec fn view(&self) -> Lore {
        Lore {
            main: self.main@,
            capture: self.capture@,
            cont: self.cont@,
            pawn: self.pawn@,
            low_ply: self.low_ply@,
            countermoves: self.countermoves@,
            nonpawn_corr: self.nonpawn_corr@,
            minor_corr: self.minor_corr@,
            material_corr: self.material_corr@,
            lastmove_corr: self.lastmove_corr@,
            tt_move_history: self.tt_move_history,
        }
    }

    /// Tables of the right size, every entry in range.
    pub open spec fn wf(&self) -> bool {
        &&& history_ok(self.main@, MAIN_SIZE as int)
        &&& history_ok(self.capture@, CAPTURE_SIZE as int)
        &&& small_history_ok(self.cont@, CONT_SIZE as int)
        &&& small_history_ok(self.pawn@, PAWN_SIZE as int)
        &&& history_ok(self.low_ply@, LOW_PLY_SIZE as int)
        &&& self.countermoves@.len() == COUNTER_SIZE
        &&& corrections_ok(self.nonpawn_corr@, CORRECTION_SIZE as int)
        &&& corrections_ok(self.minor_corr@, CORRECTION_SIZE as int)
        &&& corrections_ok(self.material_corr@, CORRECTION_SIZE as int)
        &&& corrections_ok(self.lastmove_corr@, LASTMOVE_CORRHIST_SIZE as int)
        &&& -TT_MOVE_HISTORY_MAX <= self.tt_move_history <= TT_MOVE_HISTORY_MAX
    }

    /// Nothing learned yet.
    pub open spec fn blank(&self) -> bool {
        &&& forall|i: int| 0 <= i < MAIN_SIZE ==> #[trigger] self.main@[i] == 0
        &&& forall|i: int| 0 <= i < CAPTURE_SIZE ==> #[trigger] self.capture@[i] == 0
        &&& forall|i: int| 0 <= i < CONT_SIZE ==> #[trigger] self.cont@[i] == 0
        &&& forall|i: int| 0 <= i < PAWN_SIZE ==> #[trigger] self.pawn@[i] == 0
        &&& forall|i: int| 0 <= i < LOW_PLY_SIZE ==> #[trigger] self.low_ply@[i] == 0
        &&& forall|i: int| 0 <= i < COUNTER_SIZE ==> (#[trigger] self.countermoves@[i]).0 == 0
        &&& forall|i: int| 0 <= i < CORRECTION_SIZE ==> #[trigger] self.nonpawn_corr@[i] == 0
        &&& forall|i: int| 0 <= i < CORRECTION_SIZE ==> #[trigger] self.minor_corr@[i] == 0
        &&& forall|i: int| 0 <= i < CORRECTION_SIZE ==> #[trigger] self.material_corr@[i] == 0
        &&& forall|i: int| 0 <= i < 4096 ==> #[trigger] self.lastmove_corr@[i] == 0
        &&& self.tt_move_history == 0
    }

    pub fn new() -> (r: Histories)
        ensures
            r.wf(),
            r.blank(),
    {
        let mut countermoves: Vec<Move> = Vec::with_capacity(COUNTER_SIZE);
        let mut i: usize = 0;
        while i < COUNTER_SIZE
            invariant
                i <= COUNTER_SIZE,
                countermoves@.len() == i,
                forall|j: int| 0 <= j < i ==> (#[trigger] countermoves@[j]).0 == 0,
            decreases COUNTER_SIZE - i,
        {
            countermoves.push(Move::none());
            i += 1;
        }
        Histories {
            main: zeros(MAIN_SIZE),
            capture: zeros(CAPTURE_SIZE),
            cont: small_zeros(CONT_SIZE),
            pawn: small_zeros(PAWN_SIZE),
            low_ply: zeros(LOW_PLY_SIZE),
            countermoves,
            nonpawn_corr: zeros(CORRECTION_SIZE),
            minor_corr: zeros(CORRECTION_SIZE),
            material_corr: zeros(CORRECTION_SIZE),
            lastmove_corr: zeros(LASTMOVE_CORRHIST_SIZE),
            tt_move_history: 0,
        }
    }

    /// Forgets everything.
    pub fn clear(&mut self)
        ensures
            final(self).wf(),
            final(self).blank(),
    {
        *self = Histories::new();
    }

    /// Continuation history of `pc` going to `to` after the keyed move.
    pub fn cont(&self, k: ContKey, pc: Piece, to: usize) -> (r: i32)
        requires
            self.wf(),
            key_ok(k),
            pc.0 < 12,
            to < 64,
        ensures
            r == self.cont@[cont_index(k, pc, to) as int],
            -HISTORY_MAX <= r <= HISTORY_MAX,
    {
        self.cont[cont_index(k, pc, to)] as i32
    }

    /// The entry for `pc` going to `to` after the keyed move.
    pub fn cont_mut(&mut self, k: ContKey, pc: Piece, to: usize) -> (r: &mut i16)
        requires
            old(self).wf(),
            key_ok(k),
            pc.0 < 12,
            to < 64,
        ensures
            *r == old(self).cont@[cont_index(k, pc, to) as int],
            *final(self) == (Histories { cont: final(self).cont, ..*old(self) }),
            final(self).cont@ == old(self).cont@.update(
                cont_index(k, pc, to) as int,
                *final(r),
            ),
    {
        &mut self.cont[cont_index(k, pc, to)]
    }

    /// Applies a bonus to the continuation history of `pc` going to `to`.
    pub fn bump_cont(&mut self, k: ContKey, pc: Piece, to: usize, bonus: i32)
        requires
            old(self).wf(),
            key_ok(k),
            pc.0 < 12,
            to < 64,
        ensures
            final(self).wf(),
            *final(self) == (Histories { cont: final(self).cont, ..*old(self) }),
            final(self).cont@ == old(self).cont@.update(
                cont_index(k, pc, to) as int,
                gravity_value(
                    old(self).cont@[cont_index(k, pc, to) as int] as int,
                    bonus as int,
                ) as i16,
            ),
    {
        let e = self.cont_mut(k, pc, to);
        *e = gravity(*e as i32, bonus) as i16;
    }
}

impl Default for Histories {
    fn default() -> (r: Histories)
        ensures
            r.wf(),
            r.blank(),
    {
        Histories::new()
    }
}

/// The reliability of table moves after one more observation.
pub open spec fn reliability_after(h: int, delta: int) -> int {
    h + delta - (h * (if delta < 0 {
        -delta
    } else {
        delta
    })) / 8192
}

/// Moves the reliability of table moves by `delta`.
pub fn reliability(h: i32, delta: i32) -> (r: i32)
    requires
        -TT_MOVE_HISTORY_MAX <= h <= TT_MOVE_HISTORY_MAX,
        -8192 <= delta <= 8192,
    ensures
        r == reliability_after(h as int, delta as int),
        -TT_MOVE_HISTORY_MAX <= r <= TT_MOVE_HISTORY_MAX,
{
    let a: i32 = if delta < 0 {
        -delta
    } else {
        delta
    };
    proof {
        assert(-0x400_0000 <= h * a <= 0x400_0000) by (nonlinear_arith)
            requires
                -8192 <= h <= 8192,
                0 <= a <= 8192,
        ;
        let q = (h * a) / 8192;
        assert(-8192 + a <= h - q <= 8192 - a) by (nonlinear_arith)
            requires
                -8192 <= h <= 8192,
                0 <= a <= 8192,
                q == (h * a) / 8192,
        ;
    }
    let p: i64 = h as i64 * a as i64;
    // Rounded down.
    let q: i64 = if p >= 0 {
        p / 8192
    } else {
        -((8191 - p) / 8192)
    };
    proof {
        assert(q == p as int / 8192);
    }
    (h as i64 + delta as i64 - q) as i32
}

} // verus!
