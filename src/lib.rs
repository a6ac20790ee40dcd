pub mod evolution;
pub mod evolver;
pub mod game;
pub mod network;
pub mod play;
mod rng;
pub mod training;
