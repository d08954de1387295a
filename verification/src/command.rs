//! Commands of the Universal Chess Interface: the words of a line, what they ask for, and
//! the answers.

use vstd::prelude::*;

use crate::fen::{describes, START_FEN};
use crate::fenread::{read_integer, split_fields, texts};
use crate::fenspec::{fields, integer, parse, FenError};
use crate::types::Move;
use crate::movegen::tested;
use crate::notation::trimmed;
use crate::options::{read_unsigned, unsigned};
use crate::outcome::SearchOutcome;
use crate::perft::{lemma_same_legal, lemma_same_successor, play_move, same_game};
use crate::position::Position;
use crate::rules::PosView;
use crate::text::{chars_of, lowered, matches_literal, push_text, string_of, to_lower};
use crate::timeman::Limits;
use crate::variant::Variant;

verus! {

// Words

/// The words of a line.
pub fn words(line: &str) -> (r: Vec<Vec<char>>)
    ensures
        texts(r@) == fields(line@),
{
    split_fields(&chars_of(line))
}

/// Words put together with a space between each two.
pub open spec fn joined(w: Seq<Seq<char>>) -> Seq<char>
    decreases w.len(),
{
    if w.len() == 0 {
        seq![]
    } else if w.len() == 1 {
        w[0]
    } else {
        joined(w.drop_last()) + seq![' '] + w.last()
    }
}

fn push_word(s: &mut Vec<char>, w: &Vec<char>)
    ensures
        final(s)@ == old(s)@ + w@,
{
    let ghost s0 = s@;
    let mut i: usize = 0;
    assert(s@ =~= s0 + w@.subrange(0, 0));
    while i < w.len()
        invariant
            i <= w@.len(),
            s@ == s0 + w@.subrange(0, i as int),
        decreases w@.len() - i,
    {
        s.push(w[i]);
        i += 1;
        assert(s@ =~= s0 + w@.subrange(0, i as int));
    }
    assert(w@.subrange(0, i as int) =~= w@);
}

/// The words from `from` up to `to` put together.
pub fn join(w: &Vec<Vec<char>>, from: usize, to: usize) -> (r: Vec<char>)
    requires
        from <= to <= w@.len(),
    ensures
        r@ == joined(texts(w@).subrange(from as int, to as int)),
{
    let ghost t = texts(w@);
    let mut out: Vec<char> = Vec::new();
    let mut i: usize = from;
    assert(t.subrange(from as int, from as int).len() == 0);
    assert(out@ =~= seq![]);
    while i < to
        invariant
            from <= i <= to <= w@.len(),
            t == texts(w@),
            out@ == joined(t.subrange(from as int, i as int)),
        decreases to - i,
    {
        let ghost before = out@;
        if i > from {
            out.push(' ');
        }
        push_word(&mut out, &w[i]);
        proof {
            let a = t.subrange(from as int, i as int);
            let b = t.subrange(from as int, i + 1);
            assert(b.drop_last() =~= a);
            assert(b.last() == w@[i as int]@);
            if i > from {
                assert(out@ =~= before + seq![' '] + w@[i as int]@);
            } else {
                assert(b[0] == w@[i as int]@);
                assert(out@ =~= w@[i as int]@);
            }
        }
        i += 1;
    }
    out
}

/// Whether a word is `key`, whatever the case of its letters.
pub open spec fn spells(w: Seq<char>, key: Seq<char>) -> bool {
    lowered(w) == key
}

fn word_spells(w: &Vec<char>, key: &str) -> (r: bool)
    ensures
        r == spells(w@, key@),
{
    let mut low: Vec<char> = Vec::new();
    let mut i: usize = 0;
    while i < w.len()
        invariant
            i <= w@.len(),
            low@ == lowered(w@.subrange(0, i as int)),
        decreases w@.len() - i,
    {
        low.push(to_lower(w[i]));
        i += 1;
        assert(low@ =~= lowered(w@.subrange(0, i as int)));
    }
    assert(w@.subrange(0, i as int) =~= w@);
    matches_literal(&low, key)
}

/// The first word from `i` on that is `key`, or the number of words.
pub open spec fn word_at(w: Seq<Seq<char>>, key: Seq<char>, i: int) -> int
    decreases w.len() - i,
{
    if i < 0 || i >= w.len() {
        w.len() as int
    } else if w[i] == key {
        i
    } else {
        word_at(w, key, i + 1)
    }
}

/// Index of the first word that is `key`, or the number of words.
pub fn find_word(w: &Vec<Vec<char>>, key: &str) -> (r: usize)
    ensures
        r == word_at(texts(w@), key@, 0),
        r <= w@.len(),
{
    let mut i: usize = 0;
    while i < w.len() && !matches_literal(&w[i], key)
        invariant
            i <= w@.len(),
            word_at(texts(w@), key@, 0) == word_at(texts(w@), key@, i as int),
        decreases w@.len() - i,
    {
        assert(texts(w@)[i as int] == w@[i as int]@);
        i += 1;
    }
    assert(i < w@.len() ==> texts(w@)[i as int] == w@[i as int]@);
    i
}

/// The first word from `i` on that spells `key`, or the number of words.
pub open spec fn spelled_at(w: Seq<Seq<char>>, key: Seq<char>, i: int) -> int
    decreases w.len() - i,
{
    if i < 0 || i >= w.len() {
        w.len() as int
    } else if spells(w[i], key) {
        i
    } else {
        spelled_at(w, key, i + 1)
    }
}

fn find_spelled(w: &Vec<Vec<char>>, key: &str) -> (r: usize)
    ensures
        r == spelled_at(texts(w@), key@, 0),
        r <= w@.len(),
{
    let mut i: usize = 0;
    while i < w.len() && !word_spells(&w[i], key)
        invariant
            i <= w@.len(),
            spelled_at(texts(w@), key@, 0) == spelled_at(texts(w@), key@, i as int),
        decreases w@.len() - i,
    {
        assert(texts(w@)[i as int] == w@[i as int]@);
        i += 1;
    }
    assert(i < w@.len() ==> texts(w@)[i as int] == w@[i as int]@);
    i
}

// Commands

/// What a line asks for.
#[derive(Clone, Copy, PartialEq, Eq, Debug, Structural)]
pub enum Command {
    /// An empty line.
    Empty,
    Uci,
    IsReady,
    SetOption,
    NewGame,
    Position,
    Go,
    Stop,
    PonderHit,
    Quit,
    Display,
    Eval,
    Perft,
    Divide,
    Bench,
    Unknown,
}

/// The command a word stands for.
pub open spec fn command_named(w: Seq<char>) -> Command {
    if w == "uci"@ {
        Command::Uci
    } else if w == "isready"@ {
        Command::IsReady
    } else if w == "setoption"@ {
        Command::SetOption
    } else if w == "ucinewgame"@ {
        Command::NewGame
    } else if w == "position"@ {
        Command::Position
    } else if w == "go"@ {
        Command::Go
    } else if w == "stop"@ {
        Command::Stop
    } else if w == "ponderhit"@ {
        Command::PonderHit
    } else if w == "quit"@ {
        Command::Quit
    } else if w == "d"@ || w == "display"@ {
        Command::Display
    } else if w == "eval"@ {
        Command::Eval
    } else if w == "perft"@ {
        Command::Perft
    } else if w == "divide"@ {
        Command::Divide
    } else if w == "bench"@ {
        Command::Bench
    } else {
        Command::Unknown
    }
}

/// The command of a line: its first word decides.
pub fn command(w: &Vec<Vec<char>>) -> (r: Command)
    ensures
        r == (if w@.len() == 0 {
            Command::Empty
        } else {
            command_named(w@[0]@)
        }),
{
    if w.len() == 0 {
        return Command::Empty;
    }
    let c = &w[0];
    if matches_literal(c, "uci") {
        Command::Uci
    } else if matches_literal(c, "isready") {
        Command::IsReady
    } else if matches_literal(c, "setoption") {
        Command::SetOption
    } else if matches_literal(c, "ucinewgame") {
        Command::NewGame
    } else if matches_literal(c, "position") {
        Command::Position
    } else if matches_literal(c, "go") {
        Command::Go
    } else if matches_literal(c, "stop") {
        Command::Stop
    } else if matches_literal(c, "ponderhit") {
        Command::PonderHit
    } else if matches_literal(c, "quit") {
        Command::Quit
    } else if matches_literal(c, "d") || matches_literal(c, "display") {
        Command::Display
    } else if matches_literal(c, "eval") {
        Command::Eval
    } else if matches_literal(c, "perft") {
        Command::Perft
    } else if matches_literal(c, "divide") {
        Command::Divide
    } else if matches_literal(c, "bench") {
        Command::Bench
    } else {
        Command::Unknown
    }
}

/// The depth a command names in its second word, or a default.
pub fn depth_argument(w: &Vec<Vec<char>>, default: u32) -> (r: u32)
    ensures
        r == (if w@.len() > 1 && unsigned(w@[1]@, u32::MAX as int) is Some {
            unsigned(w@[1]@, u32::MAX as int)->0
        } else {
            default as int
        }),
{
    if w.len() > 1 {
        if let Some(n) = read_unsigned(&w[1], 0xffff_ffff) {
            proof {
                lemma_unsigned_range(w@[1]@, u32::MAX as int);
            }
            return n as u32;
        }
    }
    default
}

/// The depth of a benchmark.
pub fn bench_depth(w: &Vec<Vec<char>>) -> (r: i32)
    ensures
        r == (if w@.len() > 1 && integer(w@[1]@) is Some {
            integer(w@[1]@)->0
        } else {
            12
        }),
{
    if w.len() > 1 {
        if let Some(n) = read_integer(&w[1]) {
            return n;
        }
    }
    12
}

proof fn lemma_unsigned_range(s: Seq<char>, max: int)
    ensures
        unsigned(s, max) matches Some(n) ==> n <= max,
{
}

/// What a `setoption` line says.
pub enum Setting {
    /// No option is named.
    Absent,
    /// The value comes before the name.
    Misplaced,
    /// An option and the value for it.
    Named(String, String),
}

/// The option a `setoption` line names, with the value, empty where none is given.
pub fn setting(w: &Vec<Vec<char>>) -> (r: Setting)
    ensures
        ({
            let t = texts(w@);
            let n = spelled_at(t, "name"@, 0);
            let v = spelled_at(t, "value"@, 0);
            if n == t.len() {
                r is Absent
            } else if v < n {
                r is Misplaced
            } else {
                r matches Setting::Named(name, value) && name@ == joined(t.subrange(n + 1, v))
                    && value@ == (if v < t.len() {
                    joined(t.subrange(v + 1, t.len() as int))
                } else {
                    seq![]
                })
            }
        }),
{
    let ghost t = texts(w@);
    assert(t.len() == w@.len());
    let n = find_spelled(w, "name");
    let v = find_spelled(w, "value");
    if n == w.len() {
        return Setting::Absent;
    }
    if v < n {
        return Setting::Misplaced;
    }
    proof {
        lemma_spelled(t, "name"@, 0);
        lemma_spelled(t, "value"@, 0);
        lemma_keywords_differ(t[n as int]);
    }
    let name = string_of(&join(w, n + 1, v));
    let value = if v < w.len() {
        string_of(&join(w, v + 1, w.len()))
    } else {
        String::new()
    };
    assert(v == w@.len() ==> value@ =~= seq![]);
    Setting::Named(name, value)
}

proof fn lemma_spelled(w: Seq<Seq<char>>, key: Seq<char>, i: int)
    requires
        0 <= i <= w.len(),
    ensures
        spelled_at(w, key, i) < w.len() ==> spells(w[spelled_at(w, key, i)], key),
        i <= spelled_at(w, key, i) <= w.len(),
    decreases w.len() - i,
{
    if i < w.len() && !spells(w[i], key) {
        lemma_spelled(w, key, i + 1);
    }
}

proof fn lemma_keywords_differ(w: Seq<char>)
    ensures
        !(spells(w, "name"@) && spells(w, "value"@)),
{
    reveal_strlit("name");
    reveal_strlit("value");
    assert("name"@.len() == 4);
    assert("value"@.len() == 5);
}

// Searching

/// The limits of a search as values.
pub struct LimitsView {
    pub time: Seq<u64>,
    pub inc: Seq<u64>,
    pub movestogo: u64,
    pub movetime: u64,
    pub depth: i32,
    pub nodes: u64,
    pub mate: i32,
    pub infinite: bool,
    pub ponder: bool,
    pub searchmoves: Seq<Move>,
}

impl View for Limits {
    type V = LimitsView;

    open spec fn view(&self) -> LimitsView {
        LimitsView {
            time: self.time@,
            inc: self.inc@,
            movestogo: self.movestogo,
            movetime: self.movetime,
            depth: self.depth,
            nodes: self.nodes,
            mate: self.mate,
            infinite: self.infinite,
            ponder: self.ponder,
            searchmoves: self.searchmoves@,
        }
    }
}

pub open spec fn no_limits() -> LimitsView {
    LimitsView {
        time: seq![0u64, 0],
        inc: seq![0u64, 0],
        movestogo: 0,
        movetime: 0,
        depth: 0,
        nodes: 0,
        mate: 0,
        infinite: false,
        ponder: false,
        searchmoves: seq![],
    }
}

/// The number after word `i`: anything but a number from zero up counts as zero.
pub open spec fn number_after(w: Seq<Seq<char>>, i: int) -> u64 {
    if i + 1 < w.len() && unsigned(w[i + 1], i64::MAX as int) is Some {
        unsigned(w[i + 1], i64::MAX as int)->0 as u64
    } else {
        0
    }
}

fn read_after(w: &Vec<Vec<char>>, i: usize) -> (r: u64)
    requires
        i < w@.len(),
        w@.len() < usize::MAX - 2,
    ensures
        r == number_after(texts(w@), i as int),
{
    if i + 1 < w.len() {
        proof {
            lemma_unsigned_range(w@[i + 1]@, i64::MAX as int);
            assert(texts(w@)[i + 1] == w@[i + 1]@);
        }
        if let Some(n) = read_unsigned(&w[i + 1], 0x7fff_ffff_ffff_ffff) {
            return n;
        }
    }
    0
}

/// The first word from `i` on that is no move.
pub open spec fn moves_end(moves: Seq<Option<Move>>, i: int) -> int
    decreases moves.len() - i,
{
    if i < 0 || i >= moves.len() || moves[i] is None {
        i
    } else {
        moves_end(moves, i + 1)
    }
}

/// The moves among the words from `i` up to `j`.
pub open spec fn moves_between(moves: Seq<Option<Move>>, i: int, j: int) -> Seq<Move> {
    Seq::new((j - i) as nat, |k: int| moves[i + k]->0)
}

/// The limits after the words from `i` on, `moves` holding the move each word stands for.
/// Of two mentions of the same limit the later counts.
pub open spec fn limits_from(
    w: Seq<Seq<char>>,
    moves: Seq<Option<Move>>,
    i: int,
    l: LimitsView,
) -> LimitsView
    decreases w.len() + 1 - i,
{
    let n = number_after(w, i);
    if i < 0 || i >= w.len() {
        l
    } else if w[i] == "wtime"@ {
        limits_from(w, moves, i + 2, LimitsView { time: l.time.update(0, n), ..l })
    } else if w[i] == "btime"@ {
        limits_from(w, moves, i + 2, LimitsView { time: l.time.update(1, n), ..l })
    } else if w[i] == "winc"@ {
        limits_from(w, moves, i + 2, LimitsView { inc: l.inc.update(0, n), ..l })
    } else if w[i] == "binc"@ {
        limits_from(w, moves, i + 2, LimitsView { inc: l.inc.update(1, n), ..l })
    } else if w[i] == "movestogo"@ {
        limits_from(w, moves, i + 2, LimitsView { movestogo: n, ..l })
    } else if w[i] == "movetime"@ {
        limits_from(w, moves, i + 2, LimitsView { movetime: n, ..l })
    } else if w[i] == "depth"@ {
        limits_from(w, moves, i + 2, LimitsView { depth: n as i32, ..l })
    } else if w[i] == "nodes"@ {
        limits_from(w, moves, i + 2, LimitsView { nodes: n, ..l })
    } else if w[i] == "mate"@ {
        limits_from(w, moves, i + 2, LimitsView { mate: n as i32, ..l })
    } else if w[i] == "infinite"@ {
        limits_from(w, moves, i + 1, LimitsView { infinite: true, ..l })
    } else if w[i] == "ponder"@ {
        limits_from(w, moves, i + 1, LimitsView { ponder: true, ..l })
    } else if w[i] == "searchmoves"@ && i < moves_end(moves, i + 1) <= w.len() {
        let j = moves_end(moves, i + 1);
        limits_from(
            w,
            moves,
            j,
            LimitsView { searchmoves: l.searchmoves + moves_between(moves, i + 1, j), ..l },
        )
    } else {
        limits_from(w, moves, i + 1, l)
    }
}

proof fn lemma_moves_end(moves: Seq<Option<Move>>, i: int)
    requires
        0 <= i,
    ensures
        i <= moves_end(moves, i),
        moves_end(moves, i) <= moves.len() || moves_end(moves, i) == i,
        forall|k: int| i <= k < moves_end(moves, i) ==> moves[k] is Some,
    decreases moves.len() - i,
{
    if i < moves.len() && moves[i] is Some {
        lemma_moves_end(moves, i + 1);
    }
}

#[verifier::truncate]
fn narrow(n: u64) -> (r: i32)
    ensures
        r == n as i32,
{
    n as i32
}

/// Takes the moves from word `i` on, and gives the first word that is none.
fn take_moves(moves: &Vec<Option<Move>>, i: usize, list: &mut Vec<Move>) -> (r: usize)
    requires
        i <= moves@.len(),
    ensures
        r == moves_end(moves@, i as int),
        i <= r <= moves@.len(),
        final(list)@ == old(list)@ + moves_between(moves@, i as int, r as int),
{
    let ghost l0 = list@;
    let mut j: usize = i;
    assert(list@ =~= l0 + moves_between(moves@, i as int, i as int));
    while j < moves.len()
        invariant
            i <= j <= moves@.len(),
            l0 == old(list)@,
            moves_end(moves@, i as int) == moves_end(moves@, j as int),
            list@ == l0 + moves_between(moves@, i as int, j as int),
        decreases moves@.len() - j,
    {
        match moves[j] {
            Some(m) => {
                list.push(m);
                j += 1;
                assert(list@ =~= l0 + moves_between(moves@, i as int, j as int));
            },
            None => {
                return j;
            },
        }
    }
    j
}

/// The limits a `go` command sets, `moves` holding the move each of its words stands for.
#[verifier::rlimit(60)]
pub fn read_limits(w: &Vec<Vec<char>>, moves: &Vec<Option<Move>>) -> (r: Limits)
    requires
        moves@.len() == w@.len(),
        w@.len() < usize::MAX - 2,
    ensures
        r@ == limits_from(texts(w@), moves@, 0, no_limits()),
{
    let mut l = Limits::default();
    let mut i: usize = 0;
    let ghost t = texts(w@);
    assert(l@.time =~= no_limits().time);
    assert(l@.inc =~= no_limits().inc);
    assert(l@.searchmoves =~= no_limits().searchmoves);
    while i < w.len()
        invariant
            i <= w@.len() + 1,
            w@.len() < usize::MAX - 2,
            moves@.len() == w@.len(),
            t == texts(w@),
            l.time@.len() == 2,
            l.inc@.len() == 2,
            limits_from(t, moves@, 0, no_limits()) == limits_from(t, moves@, i as int, l@),
        decreases w@.len() + 2 - i,
    {
        let ghost l0 = l@;
        let word = &w[i];
        assert(t[i as int] == word@);
        if matches_literal(word, "wtime") {
            l.time[0] = read_after(w, i);
            assert(l@ == (LimitsView { time: l0.time.update(0, number_after(t, i as int)), ..l0 }));
            i += 2;
        } else if matches_literal(word, "btime") {
            l.time[1] = read_after(w, i);
            assert(l@ == (LimitsView { time: l0.time.update(1, number_after(t, i as int)), ..l0 }));
            i += 2;
        } else if matches_literal(word, "winc") {
            l.inc[0] = read_after(w, i);
            assert(l@ == (LimitsView { inc: l0.inc.update(0, number_after(t, i as int)), ..l0 }));
            i += 2;
        } else if matches_literal(word, "binc") {
            l.inc[1] = read_after(w, i);
            assert(l@ == (LimitsView { inc: l0.inc.update(1, number_after(t, i as int)), ..l0 }));
            i += 2;
        } else if matches_literal(word, "movestogo") {
            l.movestogo = read_after(w, i);
            i += 2;
        } else if matches_literal(word, "movetime") {
            l.movetime = read_after(w, i);
            i += 2;
        } else if matches_literal(word, "depth") {
            l.depth = narrow(read_after(w, i));
            i += 2;
        } else if matches_literal(word, "nodes") {
            l.nodes = read_after(w, i);
            i += 2;
        } else if matches_literal(word, "mate") {
            l.mate = narrow(read_after(w, i));
            i += 2;
        } else if matches_literal(word, "infinite") {
            l.infinite = true;
            i += 1;
        } else if matches_literal(word, "ponder") {
            l.ponder = true;
            i += 1;
        } else if matches_literal(word, "searchmoves") {
            i = take_moves(moves, i + 1, &mut l.searchmoves);
        } else {
            i += 1;
        }
    }
    l
}

/// What reading a word as a move gives: a move of the position that it names, if any.
pub open spec fn reads_as(v: PosView, w: Seq<char>, r: Option<Move>) -> bool {
    match r {
        Some(m) => tested(v).contains(m) && v.names(trimmed(w), m),
        None => forall|m: Move| #[trigger] tested(v).contains(m) ==> !v.names(trimmed(w), m),
    }
}

/// What reading each word as a move gives.
pub open spec fn all_read(v: PosView, w: Seq<Seq<char>>, moves: Seq<Option<Move>>) -> bool {
    moves.len() == w.len() && forall|i: int|
        0 <= i < w.len() ==> reads_as(v, w[i], #[trigger] moves[i])
}

/// The limits a `go` command sets.
pub fn read_go(pos: &Position, w: &Vec<Vec<char>>) -> (r: Limits)
    requires
        pos.wf(),
        w@.len() < usize::MAX - 2,
    ensures
        exists|moves: Seq<Option<Move>>|
            all_read(pos@, texts(w@), moves) && r@ == #[trigger] limits_from(
                texts(w@),
                moves,
                0,
                no_limits(),
            ),
{
    let mut moves: Vec<Option<Move>> = Vec::new();
    let mut i: usize = 0;
    let ghost t = texts(w@);
    while i < w.len()
        invariant
            pos.wf(),
            i <= w@.len(),
            t == texts(w@),
            moves@.len() == i,
            forall|k: int| 0 <= k < i ==> reads_as(pos@, t[k], #[trigger] moves@[k]),
        decreases w@.len() - i,
    {
        let m = pos.parse_uci_move(string_of(&w[i]).as_str());
        assert(t[i as int] == w@[i as int]@);
        assert(reads_as(pos@, t[i as int], m));
        moves.push(m);
        i += 1;
    }
    assert(all_read(pos@, t, moves@));
    read_limits(w, &moves)
}

// Positions

/// The text of the position a `position` command asks for, without its moves: the words
/// after the command, up to `moves`.
pub open spec fn position_text(w: Seq<Seq<char>>, variant: Variant) -> Option<Seq<char>> {
    let end = word_at(w, "moves"@, 0);
    if w.len() == 0 {
        None
    } else if w[0] == "startpos"@ {
        Some(variant.start_text())
    } else if w[0] == "fen"@ {
        Some(joined(w.subrange(1, end)))
    } else {
        Some(joined(w.subrange(0, end)))
    }
}

/// Where making the moves of a `position` command ended.
#[derive(Clone, Copy, PartialEq, Eq, Debug, Structural)]
pub enum Halt {
    /// All moves were made.
    Done,
    /// No legal move has the text of this word.
    Illegal(usize),
    /// No move can be made before this word.
    Unplayable(usize),
}

/// The position after the moves of a line.
pub open spec fn after_line(v: PosView, line: Seq<Move>) -> PosView
    decreases line.len(),
{
    if line.len() == 0 {
        v
    } else {
        after_line(v, line.drop_last()).successor(line.last())
    }
}

/// Each move of the line is legal, and the word in its place names it.
pub open spec fn follows(v: PosView, w: Seq<Seq<char>>, line: Seq<Move>) -> bool
    decreases line.len(),
{
    line.len() == 0 || {
        let u = after_line(v, line.drop_last());
        &&& line.len() <= w.len()
        &&& follows(v, w, line.drop_last())
        &&& u.legal(line.last())
        &&& u.names(trimmed(w[line.len() - 1]), line.last())
    }
}

/// The words from `from` on lead from `v` over the moves of `line` to `x`, where they end as
/// `halt` tells.
pub open spec fn led(
    v: PosView,
    w: Seq<Seq<char>>,
    from: int,
    line: Seq<Move>,
    x: PosView,
    halt: Halt,
) -> bool {
    &&& follows(v, w.skip(from), line)
    &&& same_game(x, after_line(v, line))
    &&& x.game_ply == v.game_ply + line.len()
    &&& match halt {
        Halt::Done => from + line.len() == w.len(),
        Halt::Illegal(i) => {
            &&& i == from + line.len() < w.len()
            &&& x.playable()
            &&& forall|m: Move| #[trigger] x.legal(m) ==> !x.names(trimmed(w[i as int]), m)
        },
        Halt::Unplayable(i) => {
            &&& i == from + line.len() < w.len()
            &&& !(x.playable() && x.room(1))
        },
    }
}

proof fn lemma_same_names(v: PosView, x: PosView, t: Seq<char>, m: Move)
    requires
        same_game(v, x),
    ensures
        v.names(t, m) == x.names(t, m),
{
}

/// Makes the moves that the words from `from` on name, up to the first that names none.
pub fn make_moves(pos: &mut Position, w: &Vec<Vec<char>>, from: usize) -> (r: Halt)
    requires
        old(pos).wf(),
        from <= w@.len(),
    ensures
        final(pos).wf(),
        exists|line: Seq<Move>| #[trigger]
            led(old(pos)@, texts(w@), from as int, line, final(pos)@, r),
{
    let ghost v = pos@;
    let ghost t = texts(w@);
    let ghost mut line: Seq<Move> = seq![];
    let mut i: usize = from;
    while i < w.len()
        invariant
            pos.wf(),
            from <= i <= w@.len(),
            v == old(pos)@,
            t == texts(w@),
            line.len() == i - from,
            follows(v, t.skip(from as int), line),
            same_game(pos@, after_line(v, line)),
            pos@.game_ply == v.game_ply + line.len(),
        decreases w@.len() - i,
    {
        assert(t[i as int] == w@[i as int]@);
        if !pos.is_playable() || !pos.has_room(1) {
            assert(led(v, t, from as int, line, pos@, Halt::Unplayable(i)));
            return Halt::Unplayable(i);
        }
        match pos.parse_uci_move(string_of(&w[i]).as_str()) {
            Some(m) => {
                let ghost x = pos@;
                let ghost u = after_line(v, line);
                play_move(pos, m);
                proof {
                    lemma_same_legal(x, u, m);
                    lemma_same_names(x, u, trimmed(t[i as int]), m);
                    lemma_same_successor(x, u, m);
                    let longer = line.push(m);
                    assert(longer.drop_last() =~= line);
                    assert(t.skip(from as int)[longer.len() - 1] == t[i as int]);
                    line = longer;
                }
                i += 1;
            },
            None => {
                assert(led(v, t, from as int, line, pos@, Halt::Illegal(i)));
                return Halt::Illegal(i);
            },
        }
    }
    assert(led(v, t, from as int, line, pos@, Halt::Done));
    Halt::Done
}

proof fn lemma_word_at(w: Seq<Seq<char>>, key: Seq<char>, i: int)
    requires
        0 <= i <= w.len(),
    ensures
        i <= word_at(w, key, i) <= w.len(),
        word_at(w, key, i) < w.len() ==> w[word_at(w, key, i)] == key,
    decreases w.len() - i,
{
    if i < w.len() && w[i] != key {
        lemma_word_at(w, key, i + 1);
    }
}

/// The position a `position` command asks for, given by the words after the command: the
/// one its text describes, with the moves made on it. `None` where there are no words.
pub fn read_position(w: &Vec<Vec<char>>, variant: Variant, chess960: bool) -> (r: Option<
    Result<(Position, Halt), FenError>,
>)
    requires
        w@.len() < usize::MAX,
    ensures
        match position_text(texts(w@), variant) {
            None => r is None,
            Some(text) => match parse(text, variant) {
                Err(e) => r == Some(Err::<(Position, Halt), FenError>(e)),
                Ok(s) => {
                    &&& r matches Some(Ok((pos, halt)))
                    &&& pos.wf()
                    &&& exists|start: PosView, line: Seq<Move>|
                        #![trigger describes(s, variant, start), led(
                            PosView { chess960, ..start },
                            texts(w@),
                            moves_start(texts(w@)),
                            line,
                            pos@,
                            halt,
                        )]
                        describes(s, variant, start) && led(
                            PosView { chess960, ..start },
                            texts(w@),
                            moves_start(texts(w@)),
                            line,
                            pos@,
                            halt,
                        )
                },
            },
        },
{
    let ghost t = texts(w@);
    assert(t.len() == w@.len());
    if w.len() == 0 {
        return None;
    }
    assert(t[0] == w@[0]@);
    let end = find_word(w, "moves");
    let text: Vec<char> = if matches_literal(&w[0], "startpos") {
        chars_of(variant.start_fen())
    } else if matches_literal(&w[0], "fen") {
        proof {
            lemma_word_at(t, "moves"@, 0);
            reveal_strlit("fen");
            reveal_strlit("moves");
            assert("fen"@.len() == 3);
            assert("moves"@.len() == 5);
        }
        join(w, 1, end)
    } else {
        join(w, 0, end)
    };
    match Position::from_fen_variant(string_of(&text).as_str(), variant) {
        Err(e) => Some(Err(e)),
        Ok(p) => {
            let mut pos = p;
            let ghost start = pos@;
            pos.set_chess960(chess960);
            let from = if end < w.len() {
                end + 1
            } else {
                end
            };
            assert(from == moves_start(t));
            let halt = make_moves(&mut pos, w, from);
            Some(Ok((pos, halt)))
        },
    }
}

/// The first word after `moves`, or the number of words.
pub open spec fn moves_start(w: Seq<Seq<char>>) -> int {
    let end = word_at(w, "moves"@, 0);
    if end < w.len() {
        end + 1
    } else {
        end
    }
}

// Answers

/// Mixed opening/middlegame/endgame positions for `bench`.
pub const BENCH_FENS: [&'static str; 14] = [
    START_FEN,
    "r3k2r/p1ppqpb1/bn2pnp1/3PN3/1p2P3/2N2Q1p/PPPBBPPP/R3K2R w KQkq - 0 1",
    "r1bqkbnr/pppp1ppp/2n5/4p3/4P3/5N2/PPPP1PPP/RNBQKB1R w KQkq - 2 3",
    "r2q1rk1/ppp2ppp/2n1bn2/2b1p3/3pP3/3P1NPP/PPP1NPB1/R1BQ1RK1 b - - 0 9",
    "rnbq1k1r/pp1Pbppp/2p5/8/2B5/8/PPP1NnPP/RNBQK2R w KQ - 1 8",
    "r4rk1/1pp1qppp/p1np1n2/2b1p1B1/2B1P1b1/P1NP1N2/1PP1QPPP/R4RK1 w - - 0 10",
    "8/2p5/3p4/KP5r/1R3p1k/8/4P1P1/8 w - - 0 1",
    "r3k2r/Pppp1ppp/1b3nbN/nP6/BBP1P3/q4N2/Pp1P2PP/R2Q1RK1 w kq - 0 1",
    "4rrk1/pp1n3p/3q2pQ/2p1pb1P/2P1p3/2P3N1/2P1P1P1/2P3K1 w - - 0 1",
    "6k1/3b3r/1p1p4/p1n2p2/1PPNpP1q/P3P1p1/1R1RB1P1/5K2 b - - 0 1",
    "8/8/1p1r1k2/p1pPN1p1/P3KnP1/1P6/8/3R4 b - - 0 1",
    "5rk1/1pp2q1p/p1pb4/8/3P1NP1/2P5/1P1BQ1P1/5RK1 b - - 0 1",
    "8/8/8/8/5kp1/P7/8/1K1N4 w - - 0 1",
    "6k1/6p1/6Pp/ppp5/3pn2P/1P3K2/1PP2P2/3N4 b - - 0 1",
];

/// The `bestmove` line.
pub fn best_move_text(pos: &Position, outcome: &SearchOutcome) -> (r: String)
    ensures
        r@ == (if outcome.best_move == Move(0) {
            "bestmove 0000"@
        } else if outcome.ponder != Move(0) {
            "bestmove "@ + pos@.move_text(outcome.best_move) + " ponder "@ + pos@.move_text(
                outcome.ponder,
            )
        } else {
            "bestmove "@ + pos@.move_text(outcome.best_move)
        }),
{
    let mut s = String::new();
    if outcome.best_move.is_none() {
        push_text(&mut s, "bestmove 0000");
        assert(s@ =~= "bestmove 0000"@);
        return s;
    }
    push_text(&mut s, "bestmove ");
    push_text(&mut s, pos.move_to_uci(outcome.best_move).as_str());
    assert(s@ =~= "bestmove "@ + pos@.move_text(outcome.best_move));
    if outcome.ponder.is_some() {
        push_text(&mut s, " ponder ");
        push_text(&mut s, pos.move_to_uci(outcome.ponder).as_str());
    }
    s
}

/// A move has the same text before and after other moves of the game, so the reply to
/// ponder can be written from either position.
pub proof fn replies_keep_their_text(v: PosView, x: PosView, m: Move, reply: Move)
    requires
        v.made(m, v.check_test(m), x),
    ensures
        x.move_text(reply) == v.move_text(reply),
{
}

} // verus!
