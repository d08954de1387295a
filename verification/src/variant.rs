//! Supported chess variants and the rules that tell them apart.

use vstd::prelude::*;

use crate::text::{lower_ascii, matches_literal};

verus! {

#[derive(Clone, Copy, PartialEq, Eq, Debug, Hash, Structural)]
pub enum Variant {
    Standard,
    /// Standard rules with shuffled back ranks; castling is king-takes-rook.
    Chess960,
    /// Captures are mandatory, the king is an ordinary piece (promotion to king is
    /// allowed) and having no legal move or no pieces wins.
    Antichess,
    /// Standard chess where delivering the third check wins.
    ThreeCheck,
    /// No pawns, checks are illegal, and the first king to reach the eighth rank wins
    /// (White reaching first gives Black one move to equalise into a draw).
    RacingKings,
    /// Captured pieces change hands and may be dropped on empty squares.
    Crazyhouse,
    /// A king reaching one of the four centre squares wins.
    KingOfTheHill,
}

impl Default for Variant {
    fn default() -> (r: Self)
        ensures
            r == Variant::Standard,
    {
        Variant::Standard
    }
}

impl Variant {
    pub const ALL: [Variant; 7] = [
        Variant::Standard,
        Variant::Chess960,
        Variant::Antichess,
        Variant::ThreeCheck,
        Variant::RacingKings,
        Variant::Crazyhouse,
        Variant::KingOfTheHill,
    ];

    /// Whether the king is royal (check, mate and pins exist).
    #[verifier::allow_in_spec]
    pub fn royal_king(self) -> bool
        returns
            self != Variant::Antichess,
    {
        match self {
            Variant::Antichess => false,
            _ => true,
        }
    }

    #[verifier::allow_in_spec]
    pub fn castling_allowed(self) -> bool
        returns
            self != Variant::Antichess && self != Variant::RacingKings,
    {
        match self {
            Variant::Antichess | Variant::RacingKings => false,
            _ => true,
        }
    }

    /// Standard material/endgame knowledge (insufficient material, mop-up, scaling) applies.
    #[verifier::allow_in_spec]
    pub fn standard_material(self) -> bool
        returns
            self == Variant::Standard || self == Variant::Chess960,
    {
        match self {
            Variant::Standard | Variant::Chess960 => true,
            _ => false,
        }
    }

    /// Null move pruning is unsound where having no move is a win.
    #[verifier::allow_in_spec]
    pub fn allows_null_move(self) -> bool
        returns
            self != Variant::Antichess,
    {
        match self {
            Variant::Antichess => false,
            _ => true,
        }
    }

    /// Whether every pseudo-legal move needs the full legality test (racing kings
    /// forbids giving check, which no cheap pin test covers).
    #[verifier::allow_in_spec]
    pub fn needs_full_legality(self) -> bool
        returns
            self == Variant::RacingKings,
    {
        match self {
            Variant::RacingKings => true,
            _ => false,
        }
    }

    /// Whether pieces can be dropped from a pocket.
    #[verifier::allow_in_spec]
    pub fn has_drops(self) -> bool
        returns
            self == Variant::Crazyhouse,
    {
        match self {
            Variant::Crazyhouse => true,
            _ => false,
        }
    }

    /// Canonical name.
    pub fn name(self) -> (r: &'static str)
        ensures
            r@ == self.name_text(),
    {
        match self {
            Variant::Standard => "standard",
            Variant::Chess960 => "chess960",
            Variant::Antichess => "antichess",
            Variant::ThreeCheck => "3check",
            Variant::RacingKings => "racingkings",
            Variant::Crazyhouse => "crazyhouse",
            Variant::KingOfTheHill => "kingofthehill",
        }
    }

    pub open spec fn name_text(self) -> Seq<char> {
        match self {
            Variant::Standard => "standard"@,
            Variant::Chess960 => "chess960"@,
            Variant::Antichess => "antichess"@,
            Variant::ThreeCheck => "3check"@,
            Variant::RacingKings => "racingkings"@,
            Variant::Crazyhouse => "crazyhouse"@,
            Variant::KingOfTheHill => "kingofthehill"@,
        }
    }

    /// The lower-case texts that name the variant.
    pub open spec fn named(self, t: Seq<char>) -> bool {
        match self {
            Variant::Standard => t == "standard"@ || t == "chess"@ || t == "normal"@,
            Variant::Chess960 => t == "chess960"@ || t == "fischerandom"@ || t == "fischer"@ || t
                == "960"@,
            Variant::Antichess => t == "antichess"@ || t == "giveaway"@ || t == "suicide"@,
            Variant::ThreeCheck => t == "3check"@ || t == "threecheck"@ || t == "three-check"@ || t
                == "three_check"@,
            Variant::RacingKings => t == "racingkings"@ || t == "racing-kings"@ || t
                == "racing_kings"@ || t == "racing"@,
            Variant::Crazyhouse => t == "crazyhouse"@ || t == "zh"@ || t == "crazy"@,
            Variant::KingOfTheHill => t == "kingofthehill"@ || t == "koth"@ || t
                == "king-of-the-hill"@ || t == "king_of_the_hill"@,
        }
    }

    /// The variant a text names, whatever the case of its letters.
    pub fn parse(s: &str) -> (r: Option<Variant>)
        ensures
            r matches Some(v) ==> v.named(crate::text::lowered(s@)),
            r is None ==> forall|v: Variant| !#[trigger] v.named(crate::text::lowered(s@)),
    {
        let t = lower_ascii(s);
        if matches_literal(&t, "standard") || matches_literal(&t, "chess") || matches_literal(
            &t,
            "normal",
        ) {
            Some(Variant::Standard)
        } else if matches_literal(&t, "chess960") || matches_literal(&t, "fischerandom")
            || matches_literal(&t, "fischer") || matches_literal(&t, "960") {
            Some(Variant::Chess960)
        } else if matches_literal(&t, "antichess") || matches_literal(&t, "giveaway")
            || matches_literal(&t, "suicide") {
            Some(Variant::Antichess)
        } else if matches_literal(&t, "3check") || matches_literal(&t, "threecheck")
            || matches_literal(&t, "three-check") || matches_literal(&t, "three_check") {
            Some(Variant::ThreeCheck)
        } else if matches_literal(&t, "racingkings") || matches_literal(&t, "racing-kings")
            || matches_literal(&t, "racing_kings") || matches_literal(&t, "racing") {
            Some(Variant::RacingKings)
        } else if matches_literal(&t, "crazyhouse") || matches_literal(&t, "zh")
            || matches_literal(&t, "crazy") {
            Some(Variant::Crazyhouse)
        } else if matches_literal(&t, "kingofthehill") || matches_literal(&t, "koth")
            || matches_literal(&t, "king-of-the-hill") || matches_literal(&t, "king_of_the_hill") {
            Some(Variant::KingOfTheHill)
        } else {
            None
        }
    }

    /// FEN of the variant's starting position.
    pub open spec fn start_text(self) -> Seq<char> {
        match self {
            Variant::Crazyhouse => "rnbqkbnr/pppppppp/8/8/8/8/PPPPPPPP/RNBQKBNR[] w KQkq - 0 1"@,
            Variant::Antichess => "rnbqkbnr/pppppppp/8/8/8/8/PPPPPPPP/RNBQKBNR w - - 0 1"@,
            Variant::RacingKings => "8/8/8/8/8/8/krbnNBRK/qrbnNBRQ w - - 0 1"@,
            _ => "rnbqkbnr/pppppppp/8/8/8/8/PPPPPPPP/RNBQKBNR w KQkq - 0 1"@,
        }
    }

    /// FEN of the variant's starting position.
    pub fn start_fen(self) -> (r: &'static str)
        ensures
            r@ == self.start_text(),
    {
        match self {
            Variant::Crazyhouse => "rnbqkbnr/pppppppp/8/8/8/8/PPPPPPPP/RNBQKBNR[] w KQkq - 0 1",
            Variant::Antichess => "rnbqkbnr/pppppppp/8/8/8/8/PPPPPPPP/RNBQKBNR w - - 0 1",
            Variant::RacingKings => "8/8/8/8/8/8/krbnNBRK/qrbnNBRQ w - - 0 1",
            _ => "rnbqkbnr/pppppppp/8/8/8/8/PPPPPPPP/RNBQKBNR w KQkq - 0 1",
        }
    }
}

} // verus!
