//! Engine options: their values, what setting one does, and the playing strength they stand
//! for.

use vstd::prelude::*;

use crate::fenread::{read_integer, read_natural};
use crate::fenspec::{integer, natural};
use crate::notation::{trim, trimmed};
use crate::text::{
    chars_of, decimal_int, lower_ascii, lowered, matches_literal, push_integer, push_text, string_of,
};
use crate::variant::Variant;

verus! {

pub const DEFAULT_HASH_MB: usize = 64;

pub const MAX_THREADS: usize = 256;

/// Strength of each `Skill Level`. Spacing comes from 598 games played between the levels
/// themselves; the absolute placement comes from a further 360 games in which levels 0, 4,
/// 8 and 16 were matched directly against opponents of known rating, chosen so each score
/// landed near even. Levels never played directly are interpolated between their neighbours.
///
/// Roughly +/- 100 Elo: the reference opponents are Stockfish's rating-limited modes, whose
/// own scale is only approximately calibrated.
///
/// The curve is not smooth, so no formula reproduces it. Levels 12 to 16 span 20 Elo while
/// 19 to 20 spans 375, because the weakening discards up to a pawn at random right through
/// level 19 and is then switched off entirely at 20.
pub const SKILL_ELO: [i32; 21] = [
    2301, 2364, 2428, 2491, 2555, 2624, 2692, 2760, 2828, 2874, 2919, 2964, 3010, 3015, 3020, 3025,
    3030, 3065, 3099, 3125, 3500,
];

/// Range spanned by `UCI_Elo`: the weakest and strongest the engine actually plays.
pub const UCI_ELO_MIN: i32 = 2301;

pub const UCI_ELO_MAX: i32 = 3500;

#[derive(Clone, Copy, PartialEq, Eq, Debug, Structural)]
pub struct Options {
    pub hash_mb: usize,
    pub threads: usize,
    pub move_overhead: u64,
    pub multipv: usize,
    /// Scores are reported so that +1.00 is an even chance of winning.
    pub normalize: bool,
    /// Chances of winning, drawing and losing are reported with the scores.
    pub show_wdl: bool,
    pub chess960: bool,
    pub skill_level: i32,
    pub limit_strength: bool,
    pub elo: i32,
    pub variant: Variant,
}

impl Default for Options {
    fn default() -> (r: Options)
        ensures
            r == (Options {
                hash_mb: DEFAULT_HASH_MB,
                threads: 1,
                move_overhead: 10,
                multipv: 1,
                normalize: true,
                show_wdl: false,
                chess960: false,
                skill_level: 20,
                limit_strength: false,
                elo: UCI_ELO_MIN,
                variant: Variant::Standard,
            }),
            r.wf(),
    {
        Options {
            hash_mb: DEFAULT_HASH_MB,
            threads: 1,
            move_overhead: 10,
            multipv: 1,
            normalize: true,
            show_wdl: false,
            chess960: false,
            skill_level: 20,
            limit_strength: false,
            elo: UCI_ELO_MIN,
            variant: Variant::Standard,
        }
    }
}

/// What has to be done after an option was set.
#[derive(Clone, Copy, PartialEq, Eq, Debug, Structural)]
pub enum Effect {
    Nothing,
    /// Make a new table and new searchers.
    NewTable,
    ClearTable,
    /// Make new searchers.
    NewSearchers,
    /// Hand the options on to the searchers.
    Apply,
    /// The variant has changed: hand the options on and start a new game.
    NewGame,
    UnknownVariant,
    UnknownOption,
}

/// A number without sign, or with a plus sign.
pub open spec fn unsigned(s: Seq<char>, max: int) -> Option<int> {
    if s.len() > 0 && s[0] == '+' {
        natural(s.skip(1), max)
    } else {
        natural(s, max)
    }
}

/// Reads a number without sign, or with a plus sign.
pub fn read_unsigned(s: &Vec<char>, max: u64) -> (r: Option<u64>)
    ensures
        match r {
            Some(n) => unsigned(s@, max as int) == Some(n as int),
            None => unsigned(s@, max as int) is None,
        },
{
    if s.len() > 0 && s[0] == '+' {
        read_natural(s, 1, max)
    } else {
        proof {
            assert(s@.skip(0) =~= s@);
        }
        read_natural(s, 0, max)
    }
}

/// A number kept within a range.
pub open spec fn within(n: int, lo: int, hi: int) -> int {
    if n < lo {
        lo
    } else if n > hi {
        hi
    } else {
        n
    }
}

/// Whether a text names a variant, or none at all.
pub open spec fn names(s: Seq<char>, r: Option<Variant>) -> bool {
    match r {
        Some(v) => v.named(lowered(s)),
        None => forall|v: Variant| !#[trigger] v.named(lowered(s)),
    }
}

impl Options {
    pub open spec fn wf(&self) -> bool {
        &&& 1 <= self.hash_mb <= 0x10_0000
        &&& 1 <= self.threads <= MAX_THREADS
        &&& self.move_overhead <= 5000
        &&& 1 <= self.multipv <= 256
        &&& 0 <= self.skill_level <= 20
        &&& UCI_ELO_MIN <= self.elo <= UCI_ELO_MAX
    }

    /// The options with another variant.
    pub open spec fn with_variant(self, v: Variant) -> Options {
        Options { variant: v, chess960: v == Variant::Chess960, ..self }
    }

    /// The level whose measured strength is nearest the target, from level `l` on. The table
    /// rises, so this is the first level whose midpoint with its successor the target does
    /// not exceed.
    pub open spec fn level_from(target: int, l: int) -> int
        decreases 20 - l,
    {
        if l < 0 || l >= 20 || target <= (SKILL_ELO@[l] + SKILL_ELO@[l + 1]) / 2 {
            l
        } else {
            Options::level_from(target, l + 1)
        }
    }

    /// Effective skill level from either the explicit level or a UCI_Elo target.
    pub fn effective_skill(&self) -> (r: i32)
        requires
            self.wf(),
        ensures
            r == (if self.limit_strength {
                Options::level_from(self.elo as int, 0)
            } else {
                self.skill_level as int
            }),
            0 <= r <= 20,
    {
        if !self.limit_strength {
            return self.skill_level;
        }
        let mut l: usize = 0;
        while l < 20 && self.elo > (SKILL_ELO[l] + SKILL_ELO[l + 1]) / 2
            invariant
                l <= 20,
                Options::level_from(self.elo as int, 0) == Options::level_from(
                    self.elo as int,
                    l as int,
                ),
                forall|k: int| 0 <= k < 21 ==> 2301 <= #[trigger] SKILL_ELO@[k] <= 3500,
            decreases 20 - l,
        {
            l += 1;
        }
        l as i32
    }


    /// What setting an option does, `variant` being what the value names.
    pub open spec fn after_setting(
        self,
        name: Seq<char>,
        value: Seq<char>,
        variant: Option<Variant>,
    ) -> (Options, Effect) {
        let n = lowered(name);
        let on = lowered(value) == "true"@;
        if n == "hash"@ {
            match unsigned(value, usize::MAX as int) {
                Some(x) => (
                    Options { hash_mb: within(x, 1, 0x10_0000) as usize, ..self },
                    Effect::NewTable,
                ),
                None => (self, Effect::Nothing),
            }
        } else if n == "clear hash"@ {
            (self, Effect::ClearTable)
        } else if n == "threads"@ {
            match unsigned(value, usize::MAX as int) {
                Some(x) => (
                    Options { threads: within(x, 1, MAX_THREADS as int) as usize, ..self },
                    Effect::NewSearchers,
                ),
                None => (self, Effect::Nothing),
            }
        } else if n == "move overhead"@ {
            match unsigned(value, u64::MAX as int) {
                Some(x) => (
                    Options { move_overhead: within(x, 0, 5000) as u64, ..self },
                    Effect::Nothing,
                ),
                None => (self, Effect::Nothing),
            }
        } else if n == "multipv"@ {
            match unsigned(value, usize::MAX as int) {
                Some(x) => (
                    Options { multipv: within(x, 1, 256) as usize, ..self },
                    Effect::Apply,
                ),
                None => (self, Effect::Nothing),
            }
        } else if n == "normalize"@ {
            (Options { normalize: on, ..self }, Effect::Apply)
        } else if n == "uci_showwdl"@ {
            (Options { show_wdl: on, ..self }, Effect::Apply)
        } else if n == "uci_chess960"@ {
            if on {
                (self.with_variant(Variant::Chess960), Effect::NewGame)
            } else if self.variant == Variant::Chess960 {
                (self.with_variant(Variant::Standard), Effect::NewGame)
            } else {
                (self, Effect::Nothing)
            }
        } else if n == "uci_variant"@ {
            match variant {
                Some(v) => (self.with_variant(v), Effect::NewGame),
                None => (self, Effect::UnknownVariant),
            }
        } else if n == "skill level"@ {
            match integer(value) {
                Some(x) => (
                    Options { skill_level: within(x, 0, 20) as i32, ..self },
                    Effect::Apply,
                ),
                None => (self, Effect::Nothing),
            }
        } else if n == "uci_limitstrength"@ {
            (Options { limit_strength: on, ..self }, Effect::Apply)
        } else if n == "uci_elo"@ {
            match integer(value) {
                Some(x) => (
                    Options {
                        elo: within(x, UCI_ELO_MIN as int, UCI_ELO_MAX as int) as i32,
                        ..self
                    },
                    Effect::Apply,
                ),
                None => (self, Effect::Nothing),
            }
        } else if n == "ponder"@ {
            (self, Effect::Nothing)
        } else {
            (self, Effect::UnknownOption)
        }
    }

    fn set_variant(&mut self, v: Variant)
        ensures
            *final(self) == old(self).with_variant(v),
    {
        self.variant = v;
        self.chess960 = v == Variant::Chess960;
    }

    /// Sets an option and tells what has to be done about it. Values that cannot be read
    /// leave things as they are, those out of range are brought within it.
    #[verifier::rlimit(40)]
    pub fn set_option(&mut self, name: &str, value: &str) -> (r: Effect)
        requires
            old(self).wf(),
        ensures
            final(self).wf(),
            exists|variant: Option<Variant>|
                #![trigger old(self).after_setting(name@, value@, variant)]
                names(trimmed(value@), variant) && (*final(self), r) == old(self).after_setting(
                    name@,
                    value@,
                    variant,
                ),
    {
        let ghost o = *self;
        let n = lower_ascii(name);
        let on = matches_literal(&lower_ascii(value), "true");
        let val = chars_of(value);
        let word = string_of(&trim(&val));
        let variant = Variant::parse(word.as_str());
        let r = if matches_literal(&n, "hash") {
            match read_unsigned(&val, usize::MAX as u64) {
                Some(x) => {
                    self.hash_mb = keep_within(x, 1, 0x10_0000) as usize;
                    Effect::NewTable
                },
                None => Effect::Nothing,
            }
        } else if matches_literal(&n, "clear hash") {
            Effect::ClearTable
        } else if matches_literal(&n, "threads") {
            match read_unsigned(&val, usize::MAX as u64) {
                Some(x) => {
                    self.threads = keep_within(x, 1, 256) as usize;
                    Effect::NewSearchers
                },
                None => Effect::Nothing,
            }
        } else if matches_literal(&n, "move overhead") {
            match read_unsigned(&val, u64::MAX) {
                Some(x) => {
                    self.move_overhead = keep_within(x, 0, 5000);
                    Effect::Nothing
                },
                None => Effect::Nothing,
            }
        } else if matches_literal(&n, "multipv") {
            match read_unsigned(&val, usize::MAX as u64) {
                Some(x) => {
                    self.multipv = keep_within(x, 1, 256) as usize;
                    Effect::Apply
                },
                None => Effect::Nothing,
            }
        } else if matches_literal(&n, "normalize") {
            self.normalize = on;
            Effect::Apply
        } else if matches_literal(&n, "uci_showwdl") {
            self.show_wdl = on;
            Effect::Apply
        } else if matches_literal(&n, "uci_chess960") {
            if on {
                self.set_variant(Variant::Chess960);
                Effect::NewGame
            } else if self.variant == Variant::Chess960 {
                self.set_variant(Variant::Standard);
                Effect::NewGame
            } else {
                Effect::Nothing
            }
        } else if matches_literal(&n, "uci_variant") {
            match variant {
                Some(v) => {
                    self.set_variant(v);
                    Effect::NewGame
                },
                None => Effect::UnknownVariant,
            }
        } else if matches_literal(&n, "skill level") {
            match read_integer(&val) {
                Some(x) => {
                    self.skill_level = keep_between(x, 0, 20);
                    Effect::Apply
                },
                None => Effect::Nothing,
            }
        } else if matches_literal(&n, "uci_limitstrength") {
            self.limit_strength = on;
            Effect::Apply
        } else if matches_literal(&n, "uci_elo") {
            match read_integer(&val) {
                Some(x) => {
                    self.elo = keep_between(x, UCI_ELO_MIN, UCI_ELO_MAX);
                    Effect::Apply
                },
                None => Effect::Nothing,
            }
        } else if matches_literal(&n, "ponder") {
            Effect::Nothing
        } else {
            Effect::UnknownOption
        };
        proof {
            assert(names(trimmed(value@), variant));
            assert((*self, r) == o.after_setting(name@, value@, variant));
        }
        r
    }
}

/// The line that announces a number option.
pub open spec fn spin_text(name: Seq<char>, default: int, lo: int, hi: int) -> Seq<char> {
    "option name "@ + name + " type spin default "@ + decimal_int(default) + " min "@
        + decimal_int(lo) + " max "@ + decimal_int(hi)
}

fn spin_line(name: &str, default: i64, lo: i64, hi: i64) -> (r: String)
    ensures
        r@ == spin_text(name@, default as int, lo as int, hi as int),
{
    let mut s = String::new();
    push_text(&mut s, "option name ");
    push_text(&mut s, name);
    push_text(&mut s, " type spin default ");
    push_integer(&mut s, default);
    push_text(&mut s, " min ");
    push_integer(&mut s, lo);
    push_text(&mut s, " max ");
    push_integer(&mut s, hi);
    assert(s@ =~= spin_text(name@, default as int, lo as int, hi as int));
    s
}

/// The line that announces a switch.
pub open spec fn check_text(name: Seq<char>, default: Seq<char>) -> Seq<char> {
    "option name "@ + name + " type check default "@ + default
}

fn check_line(name: &str, default: &str) -> (r: String)
    ensures
        r@ == check_text(name@, default@),
{
    let mut s = String::new();
    push_text(&mut s, "option name ");
    push_text(&mut s, name);
    push_text(&mut s, " type check default ");
    push_text(&mut s, default);
    assert(s@ =~= check_text(name@, default@));
    s
}

/// The variants to choose from.
pub open spec fn variant_list(all: Seq<Variant>) -> Seq<char>
    decreases all.len(),
{
    if all.len() == 0 {
        seq![]
    } else {
        variant_list(all.drop_last()) + " var "@ + all.last().name_text()
    }
}

fn variant_line() -> (r: String)
    ensures
        r@ == "option name UCI_Variant type combo default standard"@ + variant_list(Variant::ALL@),
{
    let mut s = String::new();
    push_text(&mut s, "option name UCI_Variant type combo default standard");
    let all = Variant::ALL;
    let mut i: usize = 0;
    assert(all@.subrange(0, 0) =~= seq![]);
    assert(s@ =~= "option name UCI_Variant type combo default standard"@ + variant_list(
        all@.subrange(0, 0),
    ));
    while i < 7
        invariant
            i <= 7,
            all@.len() == 7,
            s@ == "option name UCI_Variant type combo default standard"@ + variant_list(
                all@.subrange(0, i as int),
            ),
        decreases 7 - i,
    {
        push_text(&mut s, " var ");
        push_text(&mut s, all[i].name());
        proof {
            let longer = all@.subrange(0, i + 1);
            assert(longer.drop_last() =~= all@.subrange(0, i as int));
            assert(s@ =~= "option name UCI_Variant type combo default standard"@ + variant_list(
                longer,
            ));
        }
        i += 1;
    }
    assert(all@.subrange(0, 7) =~= all@);
    s
}

/// The lines that announce the options.
pub open spec fn option_texts() -> Seq<Seq<char>> {
    seq![
        spin_text("Hash"@, DEFAULT_HASH_MB as int, 1, 0x10_0000),
        "option name Clear Hash type button"@,
        spin_text("Threads"@, 1, 1, MAX_THREADS as int),
        spin_text("Move Overhead"@, 10, 0, 5000),
        spin_text("MultiPV"@, 1, 1, 256),
        check_text("Normalize"@, "true"@),
        check_text("UCI_ShowWDL"@, "false"@),
        check_text("UCI_Chess960"@, "false"@),
        check_text("Ponder"@, "false"@),
        spin_text("Skill Level"@, 20, 0, 20),
        check_text("UCI_LimitStrength"@, "false"@),
        spin_text("UCI_Elo"@, UCI_ELO_MIN as int, UCI_ELO_MIN as int, UCI_ELO_MAX as int),
        "option name UCI_Variant type combo default standard"@ + variant_list(Variant::ALL@),
    ]
}

/// The lines that announce the options.
pub fn option_lines() -> (r: Vec<String>)
    ensures
        r@.map_values(|s: String| s@) == option_texts(),
{
    let mut out: Vec<String> = Vec::new();
    let mut button = String::new();
    push_text(&mut button, "option name Clear Hash type button");
    assert(button@ =~= "option name Clear Hash type button"@);
    out.push(spin_line("Hash", 64, 1, 0x10_0000));
    out.push(button);
    out.push(spin_line("Threads", 1, 1, 256));
    out.push(spin_line("Move Overhead", 10, 0, 5000));
    out.push(spin_line("MultiPV", 1, 1, 256));
    out.push(check_line("Normalize", "true"));
    out.push(check_line("UCI_ShowWDL", "false"));
    out.push(check_line("UCI_Chess960", "false"));
    out.push(check_line("Ponder", "false"));
    out.push(spin_line("Skill Level", 20, 0, 20));
    out.push(check_line("UCI_LimitStrength", "false"));
    out.push(spin_line("UCI_Elo", 2301, 2301, 3500));
    out.push(variant_line());
    assert(out@.map_values(|s: String| s@) =~= option_texts());
    out
}

fn keep_within(n: u64, lo: u64, hi: u64) -> (r: u64)
    requires
        lo <= hi,
    ensures
        r == within(n as int, lo as int, hi as int),
        lo <= r <= hi,
{
    if n < lo {
        lo
    } else if n > hi {
        hi
    } else {
        n
    }
}

fn keep_between(n: i32, lo: i32, hi: i32) -> (r: i32)
    requires
        lo <= hi,
    ensures
        r == within(n as int, lo as int, hi as int),
        lo <= r <= hi,
{
    if n < lo {
        lo
    } else if n > hi {
        hi
    } else {
        n
    }
}

} // verus!
