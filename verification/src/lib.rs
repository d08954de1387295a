//! Peras: a chess engine library for standard chess, Chess960, crazyhouse, antichess,
//! three-check, racing kings and king of the hill.

use vstd::prelude::*;

pub mod arith;
pub mod attackcounts;
pub mod bitboard;
pub mod bits;
pub mod command;
pub mod cuckoo;
pub mod decisions;
pub mod dirty;
pub mod drawlaw;
pub mod draws;
pub mod eval;
pub mod evallaw;
pub mod fairness;
pub mod fen;
pub mod fenlaw;
pub mod fenread;
pub mod fenspec;
pub mod geometry;
pub mod hce;
pub mod hcetables;
pub mod history;
pub mod inputs;
pub mod journal;
pub mod keys;
pub mod learning;
pub mod learnlaw;
pub mod legal;
pub mod legality;
pub mod lines;
pub mod magics;
pub mod makemove;
pub mod mopup;
pub mod movegen;
pub mod movepick;
pub mod movescore;
pub mod moveloop;
pub mod moves;
pub mod negamax;
pub mod netlaw;
pub mod network;
pub mod nnue;
pub mod notation;
pub mod options;
pub mod ordering;
pub mod orderlaw;
pub mod outcome;
pub mod params;
pub mod perft;
pub mod play;
pub mod playtest;
pub mod position;
pub mod reached;
pub mod records;
pub mod replies;
pub mod report;
pub mod reportlaw;
pub mod root;
pub mod rootlist;
pub mod rules;
pub mod search;
pub mod searcher;
pub mod searchlaw;
pub mod see;
pub mod snapshot;
pub mod start;
pub mod state;
pub mod symmetry;
pub mod tablelaw;
pub mod text;
pub mod threats;
pub mod timeman;
pub mod tt;
pub mod types;
pub mod variant;
pub mod varianteval;
pub mod votelaw;
pub mod zobrist;

verus! {

/// Name the engine answers to.
pub const ENGINE_NAME: &'static str = "Fairy-Peras";

/// Author of the engine.
pub const ENGINE_AUTHOR: &'static str = "FirePlank";

} // verus!
