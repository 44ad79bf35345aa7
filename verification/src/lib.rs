//! The verified core of a trainer that teaches a policy network to play
//! snake: the game with its shaped reward, the features that the network is
//! shown, and the bookkeeping of the Double-DQN agent.
//!
//! - `engine`: the game that runs, `state`: the game as a mathematical value
//!   with its rules, `game_laws`: what holds of every game.
//! - `grid`, `cellset`, `flood`: cells, sets of cells, and the breadth-first
//!   fill that finds what a walk can reach.
//! - `features`: the feature vector, each feature an exact fraction.
//! - `agent`: the replay memory, the cadence of training, the training batch
//!   and its targets, and the choice of an action.
//! - `shape`: the widths of a dense network's layers and of what is fed to it.
//!
//! Floating-point arithmetic is left to the caller: rewards are counted in
//! halves of a point, features are fractions, and action values are compared
//! by integer keys that order as the values do.

pub mod agent;
pub mod cellset;
pub mod engine;
pub mod features;
pub mod flood;
pub mod game_laws;
pub mod grid;
mod random;
pub mod shape;
pub mod state;
