//! `mancala`: a Kalah-style Mancala engine and position solver.
//!
//! The library is independent of any front end.
//!
//! The game:
//!
//! * [`model`] states the rules of play over sequences of seed counts.
//! * [`value`] states what a position is worth, with perfect play and to a search.
//! * [`board`] is the board: the rules of play, move generation and move application.
//! * [`notation`] parses and formats the compact board-notation strings.
//!
//! The solver:
//!
//! * [`solver`] is an exact alpha-beta solver with a node budget that falls back to a
//!   depth-limited heuristic search, plus position analysis; [`searcher`], [`search`] and
//!   [`root`] are the search itself, [`run`] says how it goes, [`effort`] and
//!   [`standard`] what it cannot do without, and [`analysis`] is what it reports.
//! * [`tt`] is the transposition table, [`hash`] a map with wide keys, and [`keys`]
//!   packs positions into them.
//! * [`endgame`] is the lazily-built endgame table, [`tablebase`] the precomputed one,
//!   and [`counting`] numbers its layouts.
//! * [`book`] is the proven opening book.
//!
//! Around it:
//!
//! * [`playtest`] plays engines against each other.
//! * [`report`], [`options`], [`cli`] and [`web`] are what the front ends say, read and
//!   decide.
//! * [`text`], [`bytes`] and [`clock`] are what the rest is written with.

pub mod analysis;
pub mod board;
pub mod book;
pub mod bytes;
pub mod cli;
pub mod clock;
pub mod counting;
pub mod effort;
pub mod endgame;
pub mod hash;
pub mod keys;
pub mod model;
pub mod notation;
pub mod options;
pub mod playtest;
pub mod report;
pub mod root;
pub mod run;
pub mod search;
pub mod searcher;
pub mod solver;
pub mod standard;
pub mod tablebase;
pub mod text;
pub mod tt;
pub mod value;
pub mod web;

pub use board::{Board, MoveResult, Player, Rules};
pub use solver::{analyze, Analysis, MoveEval};
