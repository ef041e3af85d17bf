//! The game of 2048 on a board of four by four cells, with a planner that
//! recommends moves by playing random games ahead, and what it takes to
//! train a population of agents at it: the record of an agent's play, the
//! ranking of the agents and the choice of parents for the next generation.
//!
//! Randomness comes from a generator that the caller hands in, so that a
//! seed reproduces a game. The modules [`line`] and [`board`] say what a move
//! does; [`laws`], [`sound`] and [`ids`] hold what is proved of every game.

pub mod tile;
pub mod line;
pub mod actions;
pub mod board;
pub mod tally;
pub mod change;
pub mod random;
pub mod game;
pub mod slide;
pub mod show;
pub mod sound;
pub mod ids;
pub mod laws;
pub mod mcts;
pub mod agent;
pub mod population;
pub mod nn;
