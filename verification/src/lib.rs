//! Legality checking, local deduction and repair of 3x3x3 cube sticker boards.
//!
//! A board holds 54 stickers (faces U R F D L B, nine per face, row-major); an
//! editor board may leave stickers unknown. The library decides whether a full
//! board is a reachable cube, checks necessary conditions for a partial board to be
//! completable, fills in what the known stickers force, repairs boards that got
//! stuck, and drives the playback of a solution.

pub mod model;
pub mod pieces;
pub mod text;
pub mod fit;
pub mod legal;
pub mod validate;
pub mod matching;
pub mod feasible;
pub mod propagate;
pub mod completion;
pub mod moves;
pub mod repair;
pub mod editor;
pub mod facelets;
pub mod fuzz;
pub mod cube_core;
pub mod turn_legal;
pub mod playback;
