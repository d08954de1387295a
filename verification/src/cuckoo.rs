//! Cuckoo hashing of every reversible move's key change, so that a position can ask which
//! single move leads back to an earlier key.

use vstd::prelude::*;

use crate::bitboard::{attacks_bb, test_bit};
use crate::bits::group_has;
use crate::geometry::{on_board, reaches};
use crate::types::{Move, Piece, PieceType, Square};
use crate::zobrist::{key_psq, key_side, psq_key, ZobristKeys};

verus! {

broadcast use group_has;

pub const CUCKOO_SIZE: usize = 8192;

/// Displacements allowed for one insertion.
pub const MAX_DISPLACEMENTS: u32 = 65536;

/// First slot of a key.
#[verifier::allow_in_spec]
pub fn h1(key: u64) -> usize
    returns
        (key % 0x2000) as usize,
{
    (key % 0x2000) as usize
}

/// Second slot of a key.
#[verifier::allow_in_spec]
pub fn h2(key: u64) -> usize
    returns
        ((key >> 16u64) % 0x2000) as usize,
{
    ((key >> 16u64) % 0x2000) as usize
}

/// Key change of moving piece `p` between `s` and `t`, the turn passing.
pub open spec fn move_key(p: int, s: int, t: int) -> u64 {
    (key_psq(p, s) ^ key_psq(p, t)) ^ key_side()
}

/// A piece other than a pawn can go from `s` to the higher square `t` on an empty board.
pub open spec fn reversible(p: int, s: int, t: int) -> bool {
    &&& 0 <= p < 12
    &&& Piece(p as u8).piece_type() != PieceType::Pawn
    &&& 0 <= s < t < 64
    &&& reaches(Piece(p as u8).piece_type(), s, t, 0)
}

/// The move is a reversible one of some piece and `key` is its key change.
pub open spec fn fits(key: u64, m: Move) -> bool {
    exists|p: int| #[trigger]
        reversible(p, m.from(), m.to()) && key == move_key(p, m.from(), m.to())
}

/// The tables: a key in either of its two slots, with the move it stands for.
pub struct Cuckoo {
    pub keys: Vec<u64>,
    pub moves: Vec<Move>,
}

/// What the tables hold.
pub struct Nest {
    pub keys: Seq<u64>,
    pub moves: Seq<Move>,
}

/// The other slot of a key.
pub open spec fn other_slot(key: u64, i: int) -> int {
    if i == h1(key) {
        h2(key) as int
    } else {
        h1(key) as int
    }
}

/// A key put into slot `i`: the entry in its way, if there is one, is put into its other
/// slot, and so on for at most `n` steps.
pub open spec fn settled(t: Nest, key: u64, m: Move, i: int, n: nat) -> Option<Nest>
    decreases n,
{
    if n == 0 {
        None
    } else {
        let next = Nest { keys: t.keys.update(i, key), moves: t.moves.update(i, m) };
        if t.moves[i].0 == 0 {
            Some(next)
        } else {
            settled(next, t.keys[i], t.moves[i], other_slot(t.keys[i], i), (n - 1) as nat)
        }
    }
}

/// The move of piece `p` between two squares put into the tables, if it is a reversible one.
pub open spec fn housed(t: Nest, p: int, a: int, b: int) -> Option<Nest> {
    let key = move_key(p, a, b);
    if !reversible(p, a, b) {
        Some(t)
    } else if key == 0 {
        None
    } else {
        settled(
            t,
            key,
            Move((a * 64 + b) as u16),
            h1(key) as int,
            MAX_DISPLACEMENTS as nat,
        )
    }
}

/// The first `n` pairs of squares of piece `p` put into the tables one after the other.
pub open spec fn pairs_housed(t: Nest, p: int, n: nat) -> Option<Nest>
    decreases n,
{
    if n == 0 {
        Some(t)
    } else {
        match pairs_housed(t, p, (n - 1) as nat) {
            Some(u) => housed(u, p, (n - 1) / 64, (n - 1) % 64),
            None => None,
        }
    }
}

/// All pairs of squares of the first `n` pieces put into empty tables.
pub open spec fn pieces_housed(n: nat) -> Option<Nest>
    decreases n,
{
    if n == 0 {
        Some(
            Nest {
                keys: Seq::new(CUCKOO_SIZE as nat, |i: int| 0u64),
                moves: Seq::new(CUCKOO_SIZE as nat, |i: int| Move(0)),
            },
        )
    } else {
        match pieces_housed((n - 1) as nat) {
            Some(u) => pairs_housed(u, n - 1, 4096),
            None => None,
        }
    }
}

/// Once an insertion fails there are no tables.
proof fn lemma_pairs_fail(t: Nest, p: int, a: nat, b: nat)
    requires
        a <= b,
        pairs_housed(t, p, a) is None,
    ensures
        pairs_housed(t, p, b) is None,
    decreases b,
{
    if a < b {
        lemma_pairs_fail(t, p, a, (b - 1) as nat);
    }
}

proof fn lemma_pieces_fail(a: nat, b: nat)
    requires
        a <= b,
        pieces_housed(a) is None,
    ensures
        pieces_housed(b) is None,
    decreases b,
{
    if a < b {
        lemma_pieces_fail(a, (b - 1) as nat);
    }
}

/// Pawns have no reversible moves.
proof fn lemma_pawn_pairs(t: Nest, p: int, n: nat)
    requires
        !(0 <= p < 12) || Piece(p as u8).piece_type() == PieceType::Pawn,
    ensures
        pairs_housed(t, p, n) == Some(t),
    decreases n,
{
    if n > 0 {
        lemma_pawn_pairs(t, p, (n - 1) as nat);
    }
}

impl Cuckoo {
    pub open spec fn view(&self) -> Nest {
        Nest { keys: self.keys@, moves: self.moves@ }
    }

    /// An entry is an empty slot or the key of its move, in a slot of that key.
    pub open spec fn entry_ok(&self, i: int) -> bool {
        (self.moves@[i].0 == 0 && self.keys@[i] == 0) || {
            &&& self.moves@[i].0 != 0
            &&& i == h1(self.keys@[i]) || i == h2(self.keys@[i])
            &&& fits(self.keys@[i], self.moves@[i])
        }
    }

    /// The tables hold nothing but keys of reversible moves.
    pub open spec fn wf(&self) -> bool {
        &&& self.keys@.len() == CUCKOO_SIZE
        &&& self.moves@.len() == CUCKOO_SIZE
        &&& forall|i: int| 0 <= i < CUCKOO_SIZE ==> #[trigger] self.entry_ok(i)
    }

    /// The key is in one of its slots.
    pub open spec fn stores(&self, key: u64) -> bool {
        self.keys@[h1(key) as int] == key || self.keys@[h2(key) as int] == key
    }

    /// The tables hold the key of every reversible move.
    pub open spec fn complete(&self) -> bool {
        forall|p: int, s: int, t: int| #[trigger]
            reversible(p, s, t) ==> self.stores(move_key(p, s, t))
    }

    /// The move found under a key.
    pub open spec fn found(&self, key: u64) -> Option<Move> {
        if self.keys@[h1(key) as int] == key {
            Some(self.moves@[h1(key) as int])
        } else if self.keys@[h2(key) as int] == key {
            Some(self.moves@[h2(key) as int])
        } else {
            None
        }
    }

    /// The move whose key change is `key`.
    pub fn probe(&self, key: u64) -> (r: Option<Move>)
        requires
            self.wf(),
        ensures
            r == self.found(key),
    {
        let i = h1(key);
        if self.keys[i] == key {
            return Some(self.moves[i]);
        }
        let j = h2(key);
        if self.keys[j] == key {
            return Some(self.moves[j]);
        }
        None
    }

    fn empty() -> (r: Cuckoo)
        ensures
            r.wf(),
            Some(r@) == pieces_housed(0),
    {
        let mut keys: Vec<u64> = Vec::new();
        let mut moves: Vec<Move> = Vec::new();
        let mut i: usize = 0;
        while i < CUCKOO_SIZE
            invariant
                i <= CUCKOO_SIZE,
                keys@.len() == i,
                moves@.len() == i,
                forall|k: int| 0 <= k < i ==> (#[trigger] moves@[k]).0 == 0,
                forall|k: int| 0 <= k < i ==> #[trigger] keys@[k] == 0,
            decreases CUCKOO_SIZE - i,
        {
            keys.push(0);
            moves.push(Move::none());
            i += 1;
        }
        let r = Cuckoo { keys, moves };
        proof {
            assert(r.keys@ =~= Seq::new(CUCKOO_SIZE as nat, |i: int| 0u64));
            assert(r.moves@ =~= Seq::new(CUCKOO_SIZE as nat, |i: int| Move(0)));
        }
        r
    }

    /// Stores a key, moving entries to their other slot for as long as one is in the way.
    /// Fails if that does not end within the allowed number of steps.
    fn insert(&mut self, p: Ghost<int>, s1: Square, s2: Square, k0: u64) -> (r: bool)
        requires
            old(self).wf(),
            s1 < s2 < 64,
            reversible(p@, s1 as int, s2 as int),
            k0 == move_key(p@, s1 as int, s2 as int),
            k0 != 0,
        ensures
            final(self).wf(),
            match housed(old(self)@, p@, s1 as int, s2 as int) {
                Some(t) => r && final(self)@ == t,
                None => !r,
            },
            r ==> final(self).stores(k0),
            r ==> forall|k: u64| #[trigger]
                old(self).stores(k) && k != 0 ==> final(self).stores(k),
    {
        let mut mv = Move::new(s1, s2);
        let mut key = k0;
        let mut i: usize = h1(key);
        let mut n: u32 = 0;
        proof {
            assert(mv.from() == s1 && mv.to() == s2);
            assert(reversible(p@, mv.from(), mv.to()));
        }
        while n < MAX_DISPLACEMENTS
            invariant
                self.wf(),
                i < CUCKOO_SIZE,
                i == h1(key) || i == h2(key),
                mv.0 != 0,
                k0 != 0,
                fits(key, mv),
                n <= MAX_DISPLACEMENTS,
                housed(old(self)@, p@, s1 as int, s2 as int) == settled(
                    self@,
                    key,
                    mv,
                    i as int,
                    (MAX_DISPLACEMENTS - n) as nat,
                ),
                self.stores(k0) || key == k0,
                forall|k: u64| #[trigger]
                    old(self).stores(k) && k != 0 ==> self.stores(k) || key == k,
            decreases MAX_DISPLACEMENTS - n,
        {
            let ghost before = *self;
            let old_key = self.keys[i];
            let old_mv = self.moves[i];
            self.keys.set(i, key);
            self.moves.set(i, mv);
            proof {
                assert forall|j: int| 0 <= j < CUCKOO_SIZE implies #[trigger] self.entry_ok(j) by {
                    assert(before.entry_ok(j));
                }
                assert(before.entry_ok(i as int));
                assert forall|k: u64| #[trigger] before.stores(k) && k != old_key implies self.stores(
                    k,
                ) by {}
                assert(self.stores(key));
            }
            if old_mv.is_none() {
                return true;
            }
            key = old_key;
            mv = old_mv;
            i = if i == h1(key) {
                h2(key)
            } else {
                h1(key)
            };
            n += 1;
        }
        false
    }

    /// Stores the keys of every reversible move of piece `p`.
    fn add_piece(&mut self, keys: &ZobristKeys, p: u8) -> (r: bool)
        requires
            old(self).wf(),
            keys.wf(),
            p < 12,
            Piece(p).piece_type() != PieceType::Pawn,
        ensures
            final(self).wf(),
            match pairs_housed(old(self)@, p as int, 4096) {
                Some(t) => r && final(self)@ == t,
                None => !r,
            },
            r ==> forall|k: u64| #[trigger]
                old(self).stores(k) && k != 0 ==> final(self).stores(k),
            r ==> forall|s: int, t: int| #[trigger]
                reversible(p as int, s, t) ==> move_key(p as int, s, t) != 0 && final(self).stores(
                    move_key(p as int, s, t),
                ),
    {
        let pt = Piece(p).piece_type();
        let mut s1: Square = 0;
        while s1 < 64
            invariant
                s1 <= 64,
                p < 12,
                pt == Piece(p).piece_type(),
                pt != PieceType::Pawn,
                keys.wf(),
                self.wf(),
                pairs_housed(old(self)@, p as int, (64 * s1) as nat) == Some(self@),
                forall|k: u64| #[trigger] old(self).stores(k) && k != 0 ==> self.stores(k),
                forall|s: int, t: int| #[trigger]
                    reversible(p as int, s, t) && s < s1 ==> move_key(p as int, s, t) != 0
                        && self.stores(move_key(p as int, s, t)),
            decreases 64 - s1,
        {
            let attacks = attacks_bb(pt, s1, 0);
            let mut s2: Square = 0;
            while s2 < 64
                invariant
                    s1 < 64,
                    s2 <= 64,
                    pairs_housed(old(self)@, p as int, (64 * s1 + s2) as nat) == Some(self@),
                    p < 12,
                    pt == Piece(p).piece_type(),
                    pt != PieceType::Pawn,
                    keys.wf(),
                    self.wf(),
                    forall|x: int| #[trigger]
                        crate::bits::holds(attacks, x) <==> on_board(x) && reaches(
                            pt,
                            s1 as int,
                            x,
                            0,
                        ),
                    forall|k: u64| #[trigger] old(self).stores(k) && k != 0 ==> self.stores(k),
                    forall|s: int, t: int| #[trigger]
                        reversible(p as int, s, t) && (s < s1 || (s == s1 && t < s2)) ==> move_key(
                            p as int,
                            s,
                            t,
                        ) != 0 && self.stores(move_key(p as int, s, t)),
                decreases 64 - s2,
            {
                proof {
                    let k: int = 64 * s1 + s2;
                    assert(k / 64 == s1 && k % 64 == s2);
                    assert(pairs_housed(old(self)@, p as int, (k + 1) as nat) == housed(
                        self@,
                        p as int,
                        s1 as int,
                        s2 as int,
                    ));
                    if housed(self@, p as int, s1 as int, s2 as int) is None {
                        lemma_pairs_fail(old(self)@, p as int, (k + 1) as nat, 4096);
                    }
                }
                if s2 > s1 && test_bit(attacks, s2) {
                    let key = (psq_key(keys, Piece(p), s1) ^ psq_key(keys, Piece(p), s2))
                        ^ keys.side;
                    if key == 0 {
                        return false;
                    }
                    if !self.insert(Ghost(p as int), s1, s2, key) {
                        return false;
                    }
                }
                s2 += 1;
            }
            s1 += 1;
        }
        true
    }

    /// Builds the tables, the moves of every piece put in one after the other; nothing if
    /// and only if some insertion does not settle.
    pub fn new(keys: &ZobristKeys) -> (r: Option<Cuckoo>)
        requires
            keys.wf(),
        ensures
            match pieces_housed(12) {
                Some(t) => r matches Some(c) && c@ == t,
                None => r is None,
            },
            r matches Some(c) ==> c.wf() && c.complete(),
    {
        let mut c = Cuckoo::empty();
        let mut p: u8 = 0;
        while p < 12
            invariant
                p <= 12,
                keys.wf(),
                c.wf(),
                pieces_housed(p as nat) == Some(c@),
                forall|q: int, s: int, t: int| #[trigger]
                    reversible(q, s, t) && q < p ==> move_key(q, s, t) != 0 && c.stores(
                        move_key(q, s, t),
                    ),
            decreases 12 - p,
        {
            proof {
                assert(pieces_housed((p + 1) as nat) == pairs_housed(c@, p as int, 4096));
                if pairs_housed(c@, p as int, 4096) is None {
                    lemma_pieces_fail((p + 1) as nat, 12);
                }
            }
            match Piece(p).piece_type() {
                PieceType::Pawn => {
                    proof {
                        lemma_pawn_pairs(c@, p as int, 4096);
                    }
                },
                _ => {
                    if !c.add_piece(keys, p) {
                        return None;
                    }
                },
            }
            p += 1;
        }
        Some(c)
    }
}

/// A key that is found stands for a reversible move with that key change.
pub proof fn found_moves_fit(c: Cuckoo, key: u64)
    requires
        c.wf(),
        key != 0,
    ensures
        c.found(key) matches Some(m) ==> fits(key, m),
{
    if c.found(key) is Some {
        let i = if c.keys@[h1(key) as int] == key {
            h1(key) as int
        } else {
            h2(key) as int
        };
        assert(0 <= i < CUCKOO_SIZE);
        assert(c.keys@[i] == key);
        assert(c.entry_ok(i));
    }
}

/// The key change of every reversible move is found.
pub proof fn reversible_moves_are_found(c: Cuckoo, p: int, s: int, t: int)
    requires
        c.complete(),
        reversible(p, s, t),
    ensures
        c.found(move_key(p, s, t)) is Some,
{
}

} // verus!
