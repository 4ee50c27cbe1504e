//! Batting-order search by Monte Carlo simulation of softball games.
pub mod outcome;
pub mod bases;
pub mod player;
pub mod lineup;
pub mod simulation;
pub mod search;

pub use outcome::{Gender, Outcome};
pub use bases::{BaseState, TransitionTable};
pub use player::{Player, PlayerError, Stats};
pub use lineup::PermutationGenerator;
pub use simulation::MonteCarlo;
pub use search::{keep_better, partition, reduce_best};
