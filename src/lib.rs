//! Evolutionary search of a population of strings toward a fixed target:
//! Hamming distance as fitness, random point mutation, and a generation
//! advance that ranks children, keeps the best, and in early generations
//! keeps one descendant of every lineage.

pub mod config;
pub mod distance;
mod entropy;
pub mod individual;
pub mod simulation;

pub use config::{sanitize, ConfigError, RunConfig};
pub use distance::distance;
pub use individual::Individual;
pub use simulation::{GenerationRecord, Simulation};
