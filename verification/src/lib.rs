//! Checkers on bitboards: the rules, the search and the self-play training of a player,
//! and the arena in which a human meets it.
//!
//! The rules of the game are stated over sets of squares in [`rules`]; what follows from
//! them stands in [`chains`], [`legality`], [`listing`] and [`games`], and what follows of
//! searches in [`choices`]. The same is told once more in plain terms: the legal moves over
//! rows and columns in [`routes`], playouts and searches move by move in [`transcripts`],
//! self-play field by field in [`lessons`], and the arena click by click in [`scenes`].
//! The board of [`engine`] keeps the sets as bits. Numbers of the network and the search are
//! bit patterns here, see [`single`]; computing with them is left to functions of the caller.
use vstd::prelude::*;

pub mod arena;
pub mod bits;
pub mod cache;
pub mod chains;
pub mod choices;
pub mod engine;
pub mod games;
pub mod geometry;
pub mod legality;
pub mod lessons;
pub mod listing;
pub mod ml;
pub mod playouts;
pub mod routes;
pub mod rules;
pub mod scenes;
pub mod search;
pub mod single;
pub mod training;
pub mod transcripts;

verus! {

} // verus!
