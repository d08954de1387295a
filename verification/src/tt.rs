//! Transposition table: buckets of four entries, each packed into two words.
//!
//! What a lookup or a store does to a bucket is decided on plain words, so that the same
//! decisions serve a table owned by one search and one shared between threads.

use vstd::prelude::*;

use crate::arith::{clamp, clamped};
use crate::types::{
    is_decisive, is_loss, is_win, Bound, Move, Value, VALUE_MATE, VALUE_MATED_IN_MAX_PLY,
    VALUE_MATE_IN_MAX_PLY, VALUE_NONE, MAX_PLY,
};

verus! {

pub const ENTRIES_PER_BUCKET: usize = 4;

/// Step between generations; the low bits of the byte hold the bound and the PV flag.
pub const GENERATION_DELTA: u8 = 8;

/// One entry. Word 0: key32, depth8 << 32, generation and bound << 40, move16 << 48.
/// Word 1: score16, eval16 << 16. A zero first word is an empty entry.
#[derive(Clone, Copy, PartialEq, Eq, Debug, Structural)]
pub struct Slot {
    pub data: u64,
    pub extra: u64,
}

/// What a lookup finds.
#[derive(Clone, Copy, PartialEq, Eq, Debug, Structural)]
pub struct TTData {
    /// Score relative to the node, converted by the caller with `value_from_tt`.
    pub score: Value,
    pub eval: Value,
    pub depth: i32,
    pub bound: Bound,
    pub is_pv: bool,
    pub mv: Move,
}

impl TTData {
    /// Numbers an entry can hold.
    pub open spec fn ok(self) -> bool {
        -32768 <= self.score <= 32767 && -32768 <= self.eval <= 32767 && 0 <= self.depth <= 255
    }
}

/// A signed sixteen-bit number as its bits.
#[verifier::allow_in_spec]
pub fn to_bits(v: i32) -> u64
    requires
        -32768 <= v <= 32767,
    returns
        (if v < 0 {
            (v + 65536) as u64
        } else {
            v as u64
        }),
{
    if v < 0 {
        (v + 65536) as u64
    } else {
        v as u64
    }
}

/// The signed number of sixteen bits.
#[verifier::allow_in_spec]
pub fn from_bits(x: u64) -> i32
    requires
        x < 65536,
    returns
        (if x >= 32768 {
            (x - 65536) as i32
        } else {
            x as i32
        }),
{
    if x >= 32768 {
        (x as i64 - 65536) as i32
    } else {
        x as i32
    }
}

/// First word of an entry.
#[verifier::allow_in_spec]
pub fn pack_data(key32: u64, depth: u8, gen_bound: u8, mv: Move) -> u64
    requires
        key32 < 0x1_0000_0000,
    returns
        (key32 + depth * 0x1_0000_0000 + gen_bound * 0x100_0000_0000 + mv.0 * 0x1_0000_0000_0000) as u64,
{
    key32 + depth as u64 * 0x1_0000_0000 + gen_bound as u64 * 0x100_0000_0000 + mv.0 as u64
        * 0x1_0000_0000_0000
}

/// Second word of an entry.
#[verifier::allow_in_spec]
pub fn pack_extra(score: i32, eval: i32) -> u64
    requires
        -32768 <= score <= 32767,
        -32768 <= eval <= 32767,
    returns
        (to_bits(score) + to_bits(eval) * 0x1_0000) as u64,
{
    to_bits(score) + to_bits(eval) * 0x1_0000
}

/// Upper half of a position key, kept to tell entries of a bucket apart.
#[verifier::allow_in_spec]
pub fn key32(key: u64) -> u64
    returns
        key / 0x1_0000_0000,
{
    key / 0x1_0000_0000
}

#[verifier::allow_in_spec]
pub fn data_key(d: u64) -> u64
    returns
        d % 0x1_0000_0000,
{
    d % 0x1_0000_0000
}

#[verifier::allow_in_spec]
pub fn data_depth(d: u64) -> u8
    returns
        ((d / 0x1_0000_0000) % 256) as u8,
{
    ((d / 0x1_0000_0000) % 256) as u8
}

#[verifier::allow_in_spec]
pub fn data_gen_bound(d: u64) -> u8
    returns
        ((d / 0x100_0000_0000) % 256) as u8,
{
    ((d / 0x100_0000_0000) % 256) as u8
}

#[verifier::allow_in_spec]
pub fn data_move(d: u64) -> Move
    returns
        Move((d / 0x1_0000_0000_0000) as u16),
{
    Move((d / 0x1_0000_0000_0000) as u16)
}

#[verifier::allow_in_spec]
pub fn extra_score(e: u64) -> Value
    returns
        from_bits(e % 0x1_0000),
{
    from_bits(e % 0x1_0000)
}

#[verifier::allow_in_spec]
pub fn extra_eval(e: u64) -> Value
    returns
        from_bits((e / 0x1_0000) % 0x1_0000),
{
    from_bits((e / 0x1_0000) % 0x1_0000)
}

/// Generation, PV flag and bound in one byte.
#[verifier::allow_in_spec]
pub fn pack_gen_bound(generation: u8, is_pv: bool, bound: Bound) -> u8
    returns
        ((generation - generation % 8) + (if is_pv {
            4int
        } else {
            0
        }) + bound.code()) as u8,
{
    (generation - generation % 8) + (if is_pv {
        4u8
    } else {
        0
    }) + bound.code()
}

/// How many generations ago an entry was written, in steps of eight.
#[verifier::allow_in_spec]
pub fn relative_age(gen_bound: u8, current: u8) -> u8
    returns
        ({
            let x = (current + 256 - (gen_bound - gen_bound % 8)) % 256;
            x - x % 8
        }) as u8,
{
    let x: u32 = (current as u32 + 256 - (gen_bound - gen_bound % 8) as u32) % 256;
    (x - x % 8) as u8
}

/// The parts of the first word.
proof fn lemma_data_parts(key32: u64, depth: u8, gb: u8, mv: Move)
    requires
        key32 < 0x1_0000_0000,
    ensures
        ({
            let d = pack_data(key32, depth, gb, mv);
            &&& data_key(d) == key32
            &&& data_depth(d) == depth
            &&& data_gen_bound(d) == gb
            &&& data_move(d) == mv
        }),
{
    let d = pack_data(key32, depth, gb, mv) as int;
    let m = mv.0 as int;
    let q = m * 65536 + gb * 256 + depth;
    assert(d == q * 0x1_0000_0000 + key32);
    assert(d / 0x1_0000_0000 == q && d % 0x1_0000_0000 == key32);
    assert(q / 256 == m * 256 + gb && q % 256 == depth);
    assert(q / 65536 == m);
    assert(d / 0x100_0000_0000 == m * 256 + gb);
    assert((m * 256 + gb) % 256 == gb);
    assert(d / 0x1_0000_0000_0000 == m);
}

/// The parts of the second word.
proof fn lemma_extra_parts(score: i32, eval: i32)
    requires
        -32768 <= score <= 32767,
        -32768 <= eval <= 32767,
    ensures
        extra_score(pack_extra(score, eval)) == score,
        extra_eval(pack_extra(score, eval)) == eval,
{
}

/// The parts of the byte that holds generation, PV flag and bound.
proof fn lemma_gen_bound_parts(generation: u8, is_pv: bool, bound: Bound)
    ensures
        ({
            let gb = pack_gen_bound(generation, is_pv, bound);
            &&& Bound::from_u8(gb) == bound
            &&& (gb / 4) % 2 == 1 <==> is_pv
            &&& relative_age(gb, generation) == 0
        }),
{
    assert(bound.code() <= 3);
}

/// Packing an entry and reading its fields gives them back.
pub proof fn entry_round_trip(
    key32: u64,
    depth: u8,
    generation: u8,
    is_pv: bool,
    bound: Bound,
    mv: Move,
    score: i32,
    eval: i32,
)
    requires
        key32 < 0x1_0000_0000,
        -32768 <= score <= 32767,
        -32768 <= eval <= 32767,
    ensures
        ({
            let gb = pack_gen_bound(generation, is_pv, bound);
            let d = pack_data(key32, depth, gb, mv);
            let e = pack_extra(score, eval);
            &&& data_key(d) == key32
            &&& data_depth(d) == depth
            &&& data_gen_bound(d) == gb
            &&& data_move(d) == mv
            &&& extra_score(e) == score
            &&& extra_eval(e) == eval
            &&& Bound::from_u8(gb) == bound
            &&& (gb / 4) % 2 == 1 <==> is_pv
            &&& relative_age(gb, generation) == 0
        }),
{
    lemma_gen_bound_parts(generation, is_pv, bound);
    lemma_data_parts(key32, depth, pack_gen_bound(generation, is_pv, bound), mv);
    lemma_extra_parts(score, eval);
}

// Mate scores

/// Rebases a mate score from root-relative plies to node-relative for storage.
#[verifier::allow_in_spec]
pub fn value_to_tt(v: Value, ply: usize) -> Value
    requires
        -50_000 <= v <= 50_000,
        ply <= 1000,
    returns
        (if is_win(v) {
            (v + ply) as i32
        } else if is_loss(v) {
            (v - ply) as i32
        } else {
            v
        }),
{
    if is_win(v) {
        v + ply as Value
    } else if is_loss(v) {
        v - ply as Value
    } else {
        v
    }
}

/// Inverse of `value_to_tt`; a mate that the fifty-move rule would interrupt is
/// downgraded to the largest non-mate score so it cannot be trusted blindly.
#[verifier::allow_in_spec]
pub fn value_from_tt(v: Value, ply: usize, rule50: i32) -> Value
    requires
        -50_000 <= v <= 50_000,
        ply <= 1000,
    returns
        (if v == VALUE_NONE {
            VALUE_NONE
        } else if is_win(v) {
            if VALUE_MATE - v > 100 - rule50 {
                (VALUE_MATE_IN_MAX_PLY - 1) as i32
            } else {
                (v - ply) as i32
            }
        } else if is_loss(v) {
            if VALUE_MATE + v > 100 - rule50 {
                (VALUE_MATED_IN_MAX_PLY + 1) as i32
            } else {
                (v + ply) as i32
            }
        } else {
            v
        }),
{
    if v == VALUE_NONE {
        return VALUE_NONE;
    }
    if is_win(v) {
        if (VALUE_MATE - v) as i64 > 100 - rule50 as i64 {
            return VALUE_MATE_IN_MAX_PLY - 1;
        }
        return v - ply as Value;
    }
    if is_loss(v) {
        if (VALUE_MATE + v) as i64 > 100 - rule50 as i64 {
            return VALUE_MATED_IN_MAX_PLY + 1;
        }
        return v + ply as Value;
    }
    v
}

/// A score survives being stored and read back at the same ply: any score short of a mate,
/// and every mate near enough to come before the fifty-move rule.
pub proof fn score_survives_table(v: Value, ply: usize, rule50: i32)
    requires
        -VALUE_MATE <= v <= VALUE_MATE,
        ply <= MAX_PLY,
        is_win(v) ==> v + ply != VALUE_NONE && VALUE_MATE - (v + ply) <= 100 - rule50,
        is_loss(v) ==> VALUE_MATE + (v - ply) <= 100 - rule50,
    ensures
        value_from_tt(value_to_tt(v, ply), ply, rule50) == v,
{
}

// Buckets

/// What an entry says.
#[verifier::allow_in_spec]
pub fn decode(s: Slot) -> TTData
    returns
        (TTData {
            score: extra_score(s.extra),
            eval: extra_eval(s.extra),
            depth: data_depth(s.data) as i32,
            bound: Bound::from_u8(data_gen_bound(s.data)),
            is_pv: (data_gen_bound(s.data) / 4) % 2 == 1,
            mv: data_move(s.data),
        }),
{
    let gb = data_gen_bound(s.data);
    TTData {
        score: extra_score(s.extra),
        eval: extra_eval(s.extra),
        depth: data_depth(s.data) as i32,
        bound: Bound::from_u8(gb),
        is_pv: (gb / 4) % 2 == 1,
        mv: data_move(s.data),
    }
}

/// The entry holds the position.
pub open spec fn fits(s: Slot, k: u64) -> bool {
    s.data != 0 && data_key(s.data) == k
}

/// Index of the entry for the position from `i` on; four for none.
pub open spec fn find_from(b: Seq<Slot>, k: u64, i: int) -> int
    decreases 4 - i,
{
    if i >= 4 {
        4
    } else if fits(b[i], k) {
        i
    } else {
        find_from(b, k, i + 1)
    }
}

/// The entry with its generation brought up to date.
pub open spec fn refreshed(s: Slot, generation: u8) -> Slot {
    let gb = data_gen_bound(s.data);
    let fresh = (generation - generation % 8) + gb % 8;
    Slot { data: (s.data - gb * 0x100_0000_0000 + fresh * 0x100_0000_0000) as u64, ..s }
}

/// Worth of keeping an entry: depth and PV count for it, age against it; an empty one goes
/// first.
pub open spec fn priority(s: Slot, generation: u8) -> int {
    if s.data == 0 {
        i32::MIN as int
    } else {
        data_depth(s.data) + 3 + (if (data_gen_bound(s.data) / 4) % 2 == 1 {
            2int
        } else {
            0
        }) - relative_age(data_gen_bound(s.data), generation)
    }
}

/// The first entry of least priority among those below `n`.
pub open spec fn worst_below(b: Seq<Slot>, generation: u8, n: int) -> int
    decreases n,
{
    if n <= 1 {
        0
    } else {
        let w = worst_below(b, generation, n - 1);
        if priority(b[n - 1], generation) < priority(b[w], generation) {
            n - 1
        } else {
            w
        }
    }
}

/// What is to be stored.
#[derive(Clone, Copy)]
pub struct Store {
    pub depth: i32,
    pub bound: Bound,
    pub is_pv: bool,
    /// Score relative to the node.
    pub score: Value,
    /// Static evaluation, `VALUE_NONE` to keep the one already stored.
    pub eval: Value,
    pub mv: Move,
}

impl Store {
    pub open spec fn depth8(self) -> u8 {
        clamped(self.depth as int, 0, 255) as u8
    }

    pub open spec fn score16(self) -> i32 {
        clamped(self.score as int, -32768, 32767) as i32
    }

    pub open spec fn eval16(self) -> i32 {
        clamped(self.eval as int, -32768, 32767) as i32
    }

    /// The entry written over an empty or unrelated one.
    pub open spec fn fresh(self, k: u64, generation: u8) -> Slot {
        Slot {
            data: pack_data(
                k,
                self.depth8(),
                pack_gen_bound(generation, self.is_pv, self.bound),
                self.mv,
            ),
            extra: pack_extra(self.score16(), self.eval16()),
        }
    }

    /// The new result is worth more than the one already stored for the position.
    pub open spec fn prevails(self, old: Slot, generation: u8) -> bool {
        ||| self.bound == Bound::Exact
        ||| self.depth + (if self.bound == Bound::Exact || self.is_pv {
            2int
        } else {
            0
        }) > data_depth(old.data) - 4
        ||| relative_age(data_gen_bound(old.data), generation) != 0
    }

    /// The entry that takes the place of an older one for the same position: a missing move
    /// or evaluation is taken over.
    pub open spec fn renewed(self, k: u64, old: Slot, generation: u8) -> Slot {
        Slot {
            data: pack_data(
                k,
                self.depth8(),
                pack_gen_bound(generation, self.is_pv, self.bound),
                if self.mv.0 != 0 {
                    self.mv
                } else {
                    data_move(old.data)
                },
            ),
            extra: pack_extra(
                self.score16(),
                if self.eval != VALUE_NONE {
                    self.eval16()
                } else {
                    extra_eval(old.extra)
                },
            ),
        }
    }

    /// The older entry is a decisive bound that has gone stale and loses a ply.
    pub open spec fn decays(self, old: Slot) -> bool {
        data_depth(old.data) >= 5 && Bound::from_u8(data_gen_bound(old.data)) != Bound::Exact
            && is_decisive(extra_score(old.extra))
    }

    /// The bucket after the store.
    pub open spec fn applied(self, b: Seq<Slot>, k: u64, generation: u8) -> Seq<Slot> {
        let i = find_from(b, k, 0);
        if i < 4 {
            if self.prevails(b[i], generation) {
                b.update(i, self.renewed(k, b[i], generation))
            } else if self.decays(b[i]) {
                b.update(i, (Slot { data: (b[i].data - 0x1_0000_0000) as u64, ..b[i] }))
            } else {
                b
            }
        } else {
            b.update(worst_below(b, generation, 4), self.fresh(k, generation))
        }
    }
}

/// Index of the entry for the position, if there is one.
pub fn find(b: &[Slot; 4], k: u64) -> (r: Option<usize>)
    ensures
        match r {
            Some(i) => i < 4 && i == find_from(b@, k, 0) && fits(b@[i as int], k),
            None => find_from(b@, k, 0) == 4,
        },
{
    let mut i: usize = 0;
    while i < 4
        invariant
            i <= 4,
            find_from(b@, k, 0) == find_from(b@, k, i as int),
        decreases 4 - i,
    {
        if b[i].data != 0 && data_key(b[i].data) == k {
            return Some(i);
        }
        i += 1;
    }
    None
}

/// The sixth byte of a word can be taken out and another put in.
proof fn lemma_byte_room(d: u64, fresh: u8)
    ensures
        ({
            let gb = data_gen_bound(d);
            &&& gb * 0x100_0000_0000 <= d
            &&& d - gb * 0x100_0000_0000 + fresh * 0x100_0000_0000 <= u64::MAX
        }),
{
    let q = d as int / 0x100_0000_0000;
    let r = d as int % 0x100_0000_0000;
    assert(d == q * 0x100_0000_0000 + r);
    let h = q / 256;
    let gb = q % 256;
    assert(q == h * 256 + gb);
    assert(h <= 0xffff);
    assert(data_gen_bound(d) == gb);
}

/// The entry with its generation brought up to date, so that entries still in use win
/// replacement fights.
pub fn refresh(s: Slot, generation: u8) -> (r: Slot)
    ensures
        r == refreshed(s, generation),
{
    let gb = data_gen_bound(s.data);
    let fresh: u8 = (generation - generation % 8) + gb % 8;
    proof {
        lemma_byte_room(s.data, fresh);
    }
    Slot {
        data: s.data - gb as u64 * 0x100_0000_0000 + fresh as u64 * 0x100_0000_0000,
        extra: s.extra,
    }
}

/// Taking from the depth of an entry leaves its other parts alone.
proof fn lemma_depth_cut(d: u64, cut: int, e: u64)
    requires
        0 <= cut <= data_depth(d),
        e == d - 0x1_0000_0000 * cut,
    ensures
        data_key(e) == data_key(d),
        data_depth(e) == data_depth(d) - cut,
        data_gen_bound(e) == data_gen_bound(d),
        data_move(e) == data_move(d),
{
    let q = d as int / 0x1_0000_0000;
    let low = d as int % 0x1_0000_0000;
    let h = q / 256;
    let dep = q % 256;
    assert(d == q * 0x1_0000_0000 + low);
    assert(q == h * 256 + dep);
    assert(e == (h * 256 + (dep - cut)) * 0x1_0000_0000 + low);
    let p = h * 256 + (dep - cut);
    assert(e as int / 0x1_0000_0000 == p && e as int % 0x1_0000_0000 == low);
    assert(p % 256 == dep - cut && p / 256 == h);
    assert(d as int / 0x100_0000_0000 == h);
    assert(e as int / 0x100_0000_0000 == h);
    assert(d as int / 0x1_0000_0000_0000 == h / 256);
    assert(e as int / 0x1_0000_0000_0000 == h / 256);
}

/// The entry with `penalty` plies shaved off its depth.
pub fn shave(s: Slot, penalty: u8) -> (r: Slot)
    ensures
        r.extra == s.extra,
        r.data == s.data - 0x1_0000_0000 * (if data_depth(s.data) >= penalty {
            penalty as int
        } else {
            data_depth(s.data) as int
        }),
        data_key(r.data) == data_key(s.data),
        data_depth(r.data) == (if data_depth(s.data) >= penalty {
            data_depth(s.data) - penalty
        } else {
            0
        }),
        data_gen_bound(r.data) == data_gen_bound(s.data),
        data_move(r.data) == data_move(s.data),
{
    let d = data_depth(s.data);
    let cut: u8 = if d >= penalty {
        penalty
    } else {
        d
    };
    assert(d as u64 * 0x1_0000_0000 <= s.data) by {
        let q = s.data as int / 0x1_0000_0000;
        assert(q * 0x1_0000_0000 <= s.data);
        assert(d <= q);
    }
    let data = s.data - cut as u64 * 0x1_0000_0000;
    proof {
        lemma_depth_cut(s.data, cut as int, data);
    }
    Slot { data, extra: s.extra }
}

fn priority_of(s: Slot, generation: u8) -> (r: i32)
    ensures
        r == priority(s, generation),
{
    if s.data == 0 {
        return i32::MIN;
    }
    let gb = data_gen_bound(s.data);
    let pv: i32 = if (gb / 4) % 2 == 1 {
        2
    } else {
        0
    };
    data_depth(s.data) as i32 + 3 + pv - relative_age(gb, generation) as i32
}

/// Index of the entry to give up.
pub fn worst(b: &[Slot; 4], generation: u8) -> (r: usize)
    ensures
        r < 4,
        r == worst_below(b@, generation, 4),
{
    let mut w: usize = 0;
    let mut i: usize = 1;
    let mut low = priority_of(b[0], generation);
    while i < 4
        invariant
            1 <= i <= 4,
            w < i,
            w == worst_below(b@, generation, i as int),
            low == priority(b@[w as int], generation),
        decreases 4 - i,
    {
        let p = priority_of(b[i], generation);
        if p < low {
            low = p;
            w = i;
        }
        i += 1;
    }
    w
}

/// Which entry a store changes, and to what; nothing if the bucket stays as it is.
pub fn decide_store(b: &[Slot; 4], k: u64, generation: u8, s: Store) -> (r: Option<(usize, Slot)>)
    requires
        k < 0x1_0000_0000,
    ensures
        match r {
            Some((i, slot)) => i < 4 && s.applied(b@, k, generation) == b@.update(i as int, slot),
            None => s.applied(b@, k, generation) == b@,
        },
{
    let depth8: u8 = clamp(s.depth as i64, 0, 255) as u8;
    let score16 = clamp(s.score as i64, -32768, 32767);
    let eval16 = clamp(s.eval as i64, -32768, 32767);
    let gb = pack_gen_bound(generation, s.is_pv, s.bound);
    match find(b, k) {
        Some(i) => {
            let old = b[i];
            let old_depth = data_depth(old.data) as i64;
            let old_gb = data_gen_bound(old.data);
            let pv_bonus: i64 = if s.bound == Bound::Exact || s.is_pv {
                2
            } else {
                0
            };
            if s.bound == Bound::Exact || s.depth as i64 + pv_bonus > old_depth - 4 || relative_age(
                old_gb,
                generation,
            ) != 0 {
                let mv = if s.mv.is_some() {
                    s.mv
                } else {
                    data_move(old.data)
                };
                let eval = if s.eval != VALUE_NONE {
                    eval16
                } else {
                    extra_eval(old.extra)
                };
                Some(
                    (
                        i,
                        Slot {
                            data: pack_data(k, depth8, gb, mv),
                            extra: pack_extra(score16, eval),
                        },
                    ),
                )
            } else if old_depth >= 5 && Bound::from_u8(old_gb) != Bound::Exact && is_decisive(
                extra_score(old.extra),
            ) {
                Some((i, Slot { data: old.data - 0x1_0000_0000, extra: old.extra }))
            } else {
                None
            }
        },
        None => {
            let w = worst(b, generation);
            Some(
                (
                    w,
                    Slot {
                        data: pack_data(k, depth8, gb, s.mv),
                        extra: pack_extra(score16, eval16),
                    },
                ),
            )
        },
    }
}

/// An exact result is found again with everything that was stored.
pub proof fn exact_store_is_found(b: Seq<Slot>, k: u64, generation: u8, s: Store)
    requires
        b.len() == 4,
        k < 0x1_0000_0000,
        s.bound == Bound::Exact,
        0 <= s.depth <= 255,
        -32768 <= s.score <= 32767,
        -32768 <= s.eval <= 32767,
        s.eval != VALUE_NONE,
        s.mv.0 != 0,
    ensures
        ({
            let after = s.applied(b, k, generation);
            let i = find_from(after, k, 0);
            &&& i < 4
            &&& decode(after[i]) == (TTData {
                score: s.score,
                eval: s.eval,
                depth: s.depth,
                bound: Bound::Exact,
                is_pv: s.is_pv,
                mv: s.mv,
            })
        }),
{
    stored_entry_is_found(b, k, generation, s);
}

/// Whatever prevails is found again; a missing move or evaluation is the one stored before.
pub proof fn stored_entry_is_found(b: Seq<Slot>, k: u64, generation: u8, s: Store)
    requires
        b.len() == 4,
        k < 0x1_0000_0000,
        find_from(b, k, 0) < 4 ==> s.prevails(b[find_from(b, k, 0)], generation),
        k != 0 || s.mv.0 != 0 || s.bound != Bound::Empty,
    ensures
        ({
            let after = s.applied(b, k, generation);
            let i = find_from(after, k, 0);
            let old = find_from(b, k, 0);
            &&& i < 4
            &&& decode(after[i]).score == s.score16()
            &&& decode(after[i]).depth == s.depth8()
            &&& decode(after[i]).bound == s.bound
            &&& decode(after[i]).is_pv == s.is_pv
            &&& decode(after[i]).mv == (if s.mv.0 != 0 || old >= 4 {
                s.mv
            } else {
                data_move(b[old].data)
            })
            &&& decode(after[i]).eval == (if s.eval != VALUE_NONE || old >= 4 {
                s.eval16()
            } else {
                extra_eval(b[old].extra)
            })
        }),
{
    let old = find_from(b, k, 0);
    let after = s.applied(b, k, generation);
    lemma_find(b, k, 0);
    lemma_worst(b, generation, 4);
    let at = if old < 4 {
        old
    } else {
        worst_below(b, generation, 4)
    };
    let mv = if s.mv.0 != 0 || old >= 4 {
        s.mv
    } else {
        data_move(b[old].data)
    };
    let eval = if s.eval != VALUE_NONE || old >= 4 {
        s.eval16()
    } else {
        extra_eval(b[old].extra)
    };
    entry_round_trip(k, s.depth8(), generation, s.is_pv, s.bound, mv, s.score16(), eval);
    let gb = pack_gen_bound(generation, s.is_pv, s.bound);
    assert(after[at].data == pack_data(k, s.depth8(), gb, mv));
    assert(after[at].data != 0) by {
        if k == 0 && s.mv.0 == 0 {
            assert(s.bound.code() > 0);
        }
    }
    assert(fits(after[at], k));
    assert forall|j: int| 0 <= j < at implies !fits(#[trigger] after[j], k) by {
        assert(after[j] == b[j]);
    }
    lemma_find_at(after, k, 0, at);
}

proof fn lemma_find(b: Seq<Slot>, k: u64, i: int)
    requires
        0 <= i <= 4,
    ensures
        i <= find_from(b, k, i) <= 4,
        find_from(b, k, i) < 4 ==> fits(b[find_from(b, k, i)], k),
        forall|j: int| i <= j < find_from(b, k, i) ==> !fits(#[trigger] b[j], k),
    decreases 4 - i,
{
    if i < 4 && !fits(b[i], k) {
        lemma_find(b, k, i + 1);
    }
}

proof fn lemma_find_at(b: Seq<Slot>, k: u64, i: int, at: int)
    requires
        0 <= i <= at < 4,
        fits(b[at], k),
        forall|j: int| i <= j < at ==> !fits(#[trigger] b[j], k),
    ensures
        find_from(b, k, i) == at,
    decreases at - i,
{
    if i < at {
        assert(!fits(b[i], k));
        lemma_find_at(b, k, i + 1, at);
    }
}

proof fn lemma_worst(b: Seq<Slot>, generation: u8, n: int)
    requires
        1 <= n,
    ensures
        0 <= worst_below(b, generation, n) < n,
    decreases n,
{
    if n > 1 {
        lemma_worst(b, generation, n - 1);
    }
}

// The table

/// Entries below `n` written in the current generation.
pub open spec fn current_below(slots: Seq<Slot>, generation: u8, n: nat) -> nat
    decreases n,
{
    if n == 0 {
        0
    } else {
        current_below(slots, generation, (n - 1) as nat) + if slots[n - 1].data != 0
            && relative_age(data_gen_bound(slots[n - 1].data), generation) == 0 {
            1nat
        } else {
            0nat
        }
    }
}

/// A table owned by one search.
pub struct TranspositionTable {
    pub slots: Vec<Slot>,
    pub buckets: usize,
    pub generation: u8,
}

impl TranspositionTable {
    pub open spec fn wf(&self) -> bool {
        &&& self.buckets >= 1
        &&& self.slots@.len() == 4 * self.buckets
    }

    /// First entry of the bucket of a key.
    pub open spec fn base(&self, key: u64) -> int {
        4 * (key as int % self.buckets as int)
    }

    /// The bucket of a key.
    pub open spec fn bucket(&self, key: u64) -> Seq<Slot> {
        self.slots@.subrange(self.base(key), self.base(key) + 4)
    }

    /// The entry found for a key.
    pub open spec fn lookup(&self, key: u64) -> Option<Slot> {
        let i = find_from(self.bucket(key), key32(key), 0);
        if i < 4 {
            Some(self.bucket(key)[i])
        } else {
            None
        }
    }

    /// A table of about `size_mb` megabytes: the largest power of two of buckets that fits.
    pub fn new(size_mb: usize) -> (r: TranspositionTable)
        requires
            size_mb * 65536 <= usize::MAX,
        ensures
            r.wf(),
            r.generation == GENERATION_DELTA,
            forall|i: int| 0 <= i < r.slots@.len() ==> (#[trigger] r.slots@[i]).data == 0,
            ({
                let count = (if size_mb >= 1 {
                    size_mb as int
                } else {
                    1
                }) * 16384;
                r.buckets <= count < 2 * r.buckets
            }),
            exists|k: nat| r.buckets == vstd::arithmetic::power2::pow2(k),
    {
        let count: usize = (if size_mb >= 1 {
            size_mb
        } else {
            1
        }) * 16384;
        let mut cap: usize = 1;
        let ghost mut k: nat = 0;
        proof {
            vstd::arithmetic::power2::lemma2_to64();
        }
        while cap * 2 <= count
            invariant
                1 <= cap <= count,
                4 * count <= usize::MAX,
                cap == vstd::arithmetic::power2::pow2(k),
            decreases count - cap,
        {
            proof {
                vstd::arithmetic::power2::lemma_pow2_unfold((k + 1) as nat);
                k = k + 1;
            }
            cap = cap * 2;
        }
        let mut slots: Vec<Slot> = Vec::with_capacity(cap * 4);
        let mut i: usize = 0;
        while i < cap * 4
            invariant
                i <= cap * 4,
                cap * 4 <= usize::MAX,
                slots@.len() == i,
                forall|j: int| 0 <= j < i ==> (#[trigger] slots@[j]).data == 0,
            decreases cap * 4 - i,
        {
            slots.push(Slot { data: 0, extra: 0 });
            i += 1;
        }
        TranspositionTable { slots, buckets: cap, generation: GENERATION_DELTA }
    }

    /// Size in megabytes.
    pub fn size_mb(&self) -> (r: usize)
        requires
            self.wf(),
        ensures
            r == self.buckets / 16384,
    {
        self.buckets / 16384
    }

    pub fn generation(&self) -> (r: u8)
        ensures
            r == self.generation,
    {
        self.generation
    }

    /// Starts a new generation.
    pub fn increment_age(&mut self)
        ensures
            final(self).generation == (old(self).generation + GENERATION_DELTA) % 256,
            final(self).slots == old(self).slots,
            final(self).buckets == old(self).buckets,
    {
        self.generation = ((self.generation as u16 + GENERATION_DELTA as u16) % 256) as u8;
    }

    /// Forgets everything.
    pub fn clear(&mut self)
        requires
            old(self).wf(),
        ensures
            final(self).wf(),
            final(self).buckets == old(self).buckets,
            final(self).generation == GENERATION_DELTA,
            forall|i: int|
                0 <= i < final(self).slots@.len() ==> (#[trigger] final(self).slots@[i]).data == 0,
    {
        let mut i: usize = 0;
        while i < self.slots.len()
            invariant
                i <= self.slots@.len(),
                self.slots@.len() == old(self).slots@.len(),
                self.buckets == old(self).buckets,
                forall|j: int| 0 <= j < i ==> (#[trigger] self.slots@[j]).data == 0,
            decreases self.slots@.len() - i,
        {
            self.slots.set(i, Slot { data: 0, extra: 0 });
            i += 1;
        }
        self.generation = GENERATION_DELTA;
    }

    /// The bucket of a key and where it starts.
    fn read_bucket(&self, key: u64) -> (r: (usize, [Slot; 4]))
        requires
            self.wf(),
        ensures
            r.0 == self.base(key),
            r.0 + 4 <= self.slots@.len(),
            r.1@ == self.bucket(key),
    {
        let i: usize = (key % self.buckets as u64) as usize;
        let len = self.slots.len();
        assert(i < self.buckets && 4 * i + 4 <= len);
        let base: usize = 4 * i;
        let b = [
            self.slots[base],
            self.slots[base + 1],
            self.slots[base + 2],
            self.slots[base + 3],
        ];
        assert(b@ =~= self.bucket(key));
        (base, b)
    }

    /// Looks the position up; the returned score is still node-relative. An entry that is
    /// found counts as used in the current generation.
    pub fn probe(&mut self, key: u64) -> (r: Option<TTData>)
        requires
            old(self).wf(),
        ensures
            final(self).wf(),
            final(self).buckets == old(self).buckets,
            final(self).generation == old(self).generation,
            match old(self).lookup(key) {
                Some(s) => r == Some(decode(s)),
                None => r is None,
            },
            ({
                let i = find_from(old(self).bucket(key), key32(key), 0);
                final(self).slots@ == (if i < 4 {
                    old(self).slots@.update(
                        old(self).base(key) + i,
                        refreshed(old(self).bucket(key)[i], old(self).generation),
                    )
                } else {
                    old(self).slots@
                })
            }),
    {
        let (base, b) = self.read_bucket(key);
        match find(&b, key32(key)) {
            Some(i) => {
                let s = b[i];
                self.slots.set(base + i, refresh(s, self.generation));
                Some(decode(s))
            },
            None => None,
        }
    }

    /// Move-only lookup, used to extend printed lines.
    pub fn probe_move(&self, key: u64) -> (r: Move)
        requires
            self.wf(),
        ensures
            r == (match self.lookup(key) {
                Some(s) => data_move(s.data),
                None => Move(0),
            }),
    {
        let (base, b) = self.read_bucket(key);
        match find(&b, key32(key)) {
            Some(i) => data_move(b[i].data),
            None => Move::none(),
        }
    }

    /// Shaves plies off an entry that was deep enough to cut but held the wrong bound.
    pub fn penalize(&mut self, key: u64, penalty: u8)
        requires
            old(self).wf(),
        ensures
            final(self).wf(),
            final(self).buckets == old(self).buckets,
            final(self).generation == old(self).generation,
            match old(self).lookup(key) {
                None => final(self).slots@ == old(self).slots@,
                Some(s) => exists|t: Slot|
                    t.extra == s.extra && data_key(t.data) == data_key(s.data) && data_move(t.data)
                        == data_move(s.data) && data_gen_bound(t.data) == data_gen_bound(s.data)
                        && data_depth(t.data) == (if data_depth(s.data) >= penalty {
                        data_depth(s.data) - penalty
                    } else {
                        0
                    }) && final(self).slots@ == #[trigger] old(self).slots@.update(
                        old(self).base(key) + find_from(old(self).bucket(key), key32(key), 0),
                        t,
                    ),
            },
    {
        let (base, b) = self.read_bucket(key);
        match find(&b, key32(key)) {
            Some(i) => {
                let t = shave(b[i], penalty);
                self.slots.set(base + i, t);
            },
            None => {},
        }
    }

    /// Stores an entry. `score` must already be node-relative (`value_to_tt`).
    /// `eval == VALUE_NONE` keeps the previously stored static eval.
    pub fn store(
        &mut self,
        key: u64,
        depth: i32,
        bound: Bound,
        is_pv: bool,
        score: Value,
        eval: Value,
        mv: Move,
    )
        requires
            old(self).wf(),
        ensures
            final(self).wf(),
            final(self).buckets == old(self).buckets,
            final(self).generation == old(self).generation,
            final(self).bucket(key) == (Store { depth, bound, is_pv, score, eval, mv }).applied(
                old(self).bucket(key),
                key32(key),
                old(self).generation,
            ),
            forall|i: int|
                0 <= i < old(self).slots@.len() && !(old(self).base(key) <= i < old(self).base(key)
                    + 4) ==> #[trigger] final(self).slots@[i] == old(self).slots@[i],
    {
        let (base, b) = self.read_bucket(key);
        let s = Store { depth, bound, is_pv, score, eval, mv };
        match decide_store(&b, key32(key), self.generation, s) {
            Some((i, slot)) => {
                self.slots.set(base + i, slot);
                assert(self.bucket(key) =~= b@.update(i as int, slot));
            },
            None => {},
        }
    }

    /// Fill in permille: entries of the current generation in the first thousand buckets.
    pub fn hashfull(&self) -> (r: u32)
        requires
            self.wf(),
        ensures
            ({
                let sample = if self.buckets < 1000 {
                    self.buckets as int
                } else {
                    1000
                };
                r == current_below(self.slots@, self.generation, (4 * sample) as nat) as int * 1000
                    / (4 * sample)
            }),
    {
        let sample: usize = if self.buckets < 1000 {
            self.buckets
        } else {
            1000
        };
        let mut n: u32 = 0;
        let mut i: usize = 0;
        while i < sample * 4
            invariant
                i <= sample * 4,
                1 <= sample <= 1000,
                sample * 4 <= self.slots@.len(),
                n == current_below(self.slots@, self.generation, i as nat),
                n <= i,
            decreases sample * 4 - i,
        {
            let d = self.slots[i].data;
            if d != 0 && relative_age(data_gen_bound(d), self.generation) == 0 {
                n += 1;
            }
            i += 1;
        }
        n * 1000 / (sample as u32 * 4)
    }
}

} // verus!
