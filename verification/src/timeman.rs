//! What a search is limited by, and how much of it can be planned without a clock.

use vstd::prelude::*;

use crate::types::{Color, Move, Value};

verus! {

/// Position context the allocator needs beyond the clock itself.
#[derive(Clone, Copy, Debug)]
pub struct Situation {
    pub ply: i32,
    pub rule50: i32,
    pub last_score: Option<Value>,
}

impl Default for Situation {
    fn default() -> (r: Situation)
        ensures
            r == (Situation { ply: 0, rule50: 0, last_score: None }),
    {
        Situation { ply: 0, rule50: 0, last_score: None }
    }
}

#[derive(Clone, Debug)]
pub struct Limits {
    pub time: [u64; 2],
    pub inc: [u64; 2],
    pub movestogo: u64,
    pub movetime: u64,
    pub depth: i32,
    pub nodes: u64,
    pub mate: i32,
    pub infinite: bool,
    pub ponder: bool,
    /// Root moves to restrict the search to (empty = all).
    pub searchmoves: Vec<Move>,
}

impl Default for Limits {
    fn default() -> (r: Limits)
        ensures
            r.time@ == seq![0u64, 0],
            r.inc@ == seq![0u64, 0],
            r.movestogo == 0,
            r.movetime == 0,
            r.depth == 0,
            r.nodes == 0,
            r.mate == 0,
            !r.infinite,
            !r.ponder,
            r.searchmoves@.len() == 0,
    {
        let r = Limits {
            time: [0, 0],
            inc: [0, 0],
            movestogo: 0,
            movetime: 0,
            depth: 0,
            nodes: 0,
            mate: 0,
            infinite: false,
            ponder: false,
            searchmoves: Vec::new(),
        };
        proof {
            assert(r.time@ =~= seq![0u64, 0]);
            assert(r.inc@ =~= seq![0u64, 0]);
        }
        r
    }
}

impl Limits {
    pub fn use_time_management(&self) -> (r: bool)
        ensures
            r == (self.time@[0] != 0 || self.time@[1] != 0),
    {
        self.time[0] != 0 || self.time[1] != 0
    }

    /// The search may be restricted to other moves than this.
    pub open spec fn admits(&self, m: Move) -> bool {
        self.searchmoves@.len() == 0 || self.searchmoves@.contains(m)
    }

    pub fn allows(&self, m: Move) -> (r: bool)
        ensures
            r == self.admits(m),
    {
        let mut i: usize = 0;
        while i < self.searchmoves.len()
            invariant
                i <= self.searchmoves@.len(),
                forall|k: int| 0 <= k < i ==> #[trigger] self.searchmoves@[k] != m,
            decreases self.searchmoves@.len() - i,
        {
            if self.searchmoves[i] == m {
                return true;
            }
            i += 1;
        }
        self.searchmoves.len() == 0
    }

    /// Deepest iteration to search.
    #[verifier::allow_in_spec]
    pub fn max_depth(&self) -> i32
        returns
            (if 0 < self.depth < 127 {
                self.depth
            } else {
                127
            }),
    {
        if self.depth > 0 && self.depth < 127 {
            self.depth
        } else {
            127
        }
    }
}

/// Time budget of a move, in milliseconds; the caller keeps the clock.
#[derive(Clone, Copy, Debug)]
pub struct TimeManager {
    /// Target thinking time; dynamic factors scale it.
    pub optimum: u64,
    /// Hard ceiling.
    pub maximum: u64,
    /// True for movetime/infinite/depth-limited searches: no flag risk, so the budget
    /// is a soft target rather than something to stay well under.
    pub soft: bool,
    /// Whether any wall-clock limit applies at all.
    pub timed: bool,
}

/// No wall-clock limit in milliseconds.
pub const UNTIMED_MS: u64 = 0x3FFF_FFFF_FFFF_FFFF;

impl TimeManager {
    #[verifier::allow_in_spec]
    pub fn untimed() -> TimeManager
        returns
            (TimeManager { optimum: UNTIMED_MS, maximum: UNTIMED_MS, soft: true, timed: false }),
    {
        TimeManager { optimum: UNTIMED_MS, maximum: UNTIMED_MS, soft: true, timed: false }
    }
}

/// How the time of a move is settled.
#[derive(Clone, Copy, Debug)]
pub enum Plan {
    /// Nothing to allocate.
    Settled(TimeManager),
    /// A running clock with this much time left: the allocator shares it out.
    Clock(u64),
}

/// Settles the budget of a move wherever no running clock has to be shared out: an infinite
/// search, a fixed time per move less the overhead (at most half of it), or no clock.
pub fn plan(limits: &Limits, us: Color, move_overhead: u64) -> (r: Plan)
    ensures
        r == (if limits.infinite {
            Plan::Settled(TimeManager::untimed())
        } else if limits.movetime > 0 {
            let half = limits.movetime / 2;
            let ms = (limits.movetime - (if move_overhead < half {
                move_overhead
            } else {
                half
            })) as u64;
            Plan::Settled(TimeManager { optimum: ms, maximum: ms, soft: true, timed: true })
        } else if limits.time@[us.idx() as int] == 0 {
            Plan::Settled(TimeManager::untimed())
        } else {
            Plan::Clock(limits.time@[us.idx() as int])
        }),
        limits.infinite ==> (r matches Plan::Settled(t) && !t.timed),
        !limits.infinite && limits.movetime > 0 ==> (r matches Plan::Settled(t) && t.timed
            && t.optimum == t.maximum && limits.movetime <= 2 * t.maximum && t.maximum
            <= limits.movetime && (2 * move_overhead <= limits.movetime ==> t.maximum
            + move_overhead == limits.movetime)),
        r matches Plan::Clock(ms) ==> ms > 0 && !limits.infinite && limits.movetime == 0,
{
    if limits.infinite {
        return Plan::Settled(TimeManager::untimed());
    }
    if limits.movetime > 0 {
        let half = limits.movetime / 2;
        let ms: u64 = limits.movetime - (if move_overhead < half {
            move_overhead
        } else {
            half
        });
        return Plan::Settled(TimeManager { optimum: ms, maximum: ms, soft: true, timed: true });
    }
    let time = limits.time[us.idx()];
    if time == 0 {
        // Depth or node limited, or nothing at all.
        return Plan::Settled(TimeManager::untimed());
    }
    Plan::Clock(time)
}

} // verus!
