pub mod agent;
pub mod evolution;
pub mod fitness;
pub mod operations;
pub mod population;
mod rng;
